//! What the daemon, the standalone process and the agent do round after round.

use crate::sample;
use crate::sample::{focus_message, serialize_focus_sample, FocusSample};
use vstd::prelude::*;

verus! {

// ---------------------------------------------------------------------------
// The daemon and the standalone process
// ---------------------------------------------------------------------------

/// Where the focus is learned from.
#[derive(Clone, Copy, Debug, PartialEq, Eq, Structural)]
pub enum FocusSource {
    /// From agents, through a socket.
    Socket,
    /// From the window system.
    Provider,
    /// From nowhere.
    Nowhere,
}

/// What is to be done next.
#[derive(Debug)]
pub enum RoundStep {
    /// The units that have appeared are to be seen to.
    HandleUnits,
    /// The hierarchy is to be gone through.
    ActivateDescendants,
    /// The samples that have come in are to be taken.
    Receive,
    /// The window system is to be asked.
    Poll,
    /// The time since the last focus sample is to be counted anew.
    RestartClock,
    /// The process to be held for the sample is to be told.
    Select(FocusSample),
    /// The policy is to take up the focus.
    Update(Option<u32>),
    /// The time since the last focus sample is to be told.
    ReadClock,
    Sleep,
}

/// What came of a step.
#[derive(Debug)]
pub enum RoundEvent {
    Done,
    Samples(Vec<FocusSample>),
    Selected(Option<u32>),
    /// Milliseconds since the clock was started.
    Elapsed(u128),
}

#[verifier::ext_equal]
pub enum RoundStepView {
    HandleUnits,
    ActivateDescendants,
    Receive,
    Poll,
    RestartClock,
    Select(sample::SampleView),
    Update(Option<u32>),
    ReadClock,
    Sleep,
}

#[verifier::ext_equal]
pub enum RoundEventView {
    Done,
    Samples(Seq<sample::SampleView>),
    Selected(Option<u32>),
    Elapsed(u128),
}

impl View for RoundStep {
    type V = RoundStepView;

    open spec fn view(&self) -> RoundStepView {
        match *self {
            RoundStep::HandleUnits => RoundStepView::HandleUnits,
            RoundStep::ActivateDescendants => RoundStepView::ActivateDescendants,
            RoundStep::Receive => RoundStepView::Receive,
            RoundStep::Poll => RoundStepView::Poll,
            RoundStep::RestartClock => RoundStepView::RestartClock,
            RoundStep::Select(seen) => RoundStepView::Select(seen@),
            RoundStep::Update(pid) => RoundStepView::Update(pid),
            RoundStep::ReadClock => RoundStepView::ReadClock,
            RoundStep::Sleep => RoundStepView::Sleep,
        }
    }
}

impl View for RoundEvent {
    type V = RoundEventView;

    open spec fn view(&self) -> RoundEventView {
        match *self {
            RoundEvent::Done => RoundEventView::Done,
            RoundEvent::Samples(samples) => RoundEventView::Samples(sample::sample_views(samples@)),
            RoundEvent::Selected(pid) => RoundEventView::Selected(pid),
            RoundEvent::Elapsed(ms) => RoundEventView::Elapsed(ms),
        }
    }
}

/// The rounds of the daemon or of the standalone process.
#[derive(Debug)]
pub struct Rounds {
    /// Units are announced by the service manager.
    pub has_units: bool,
    pub source: FocusSource,
    /// How long a focus from the socket holds without a further sample.
    pub stale_timeout_ms: u64,
    /// The samples of this round still to be gone through.
    pub pending: Vec<FocusSample>,
    /// The focus of this round has been let go for its age.
    pub expired: bool,
    /// What is to be done next.
    pub step: RoundStep,
}

#[verifier::ext_equal]
pub struct RoundsView {
    pub has_units: bool,
    pub source: FocusSource,
    pub stale_timeout_ms: u64,
    pub pending: Seq<sample::SampleView>,
    pub expired: bool,
    pub step: RoundStepView,
}

impl View for Rounds {
    type V = RoundsView;

    open spec fn view(&self) -> RoundsView {
        RoundsView {
            has_units: self.has_units,
            source: self.source,
            stale_timeout_ms: self.stale_timeout_ms,
            pending: sample::sample_views(self.pending@),
            expired: self.expired,
            step: self.step@,
        }
    }
}

/// A focus of that age holds no longer.
pub open spec fn stale(elapsed_ms: u128, timeout_ms: u64) -> bool {
    elapsed_ms >= timeout_ms
}

/// The rounds at another step.
pub open spec fn at_step(rounds: RoundsView, step: RoundStepView) -> RoundsView {
    RoundsView { step, ..rounds }
}

/// The rounds at the beginning of one.
pub open spec fn round_begun(rounds: RoundsView) -> RoundsView {
    at_step(
        RoundsView { pending: seq![], expired: false, ..rounds },
        if rounds.has_units {
            RoundStepView::HandleUnits
        } else {
            RoundStepView::ActivateDescendants
        },
    )
}

/// The rounds before the first.
pub open spec fn first_round(
    has_units: bool,
    source: FocusSource,
    stale_timeout_ms: u64,
) -> RoundsView {
    round_begun(
        RoundsView {
            has_units,
            source,
            stale_timeout_ms,
            pending: seq![],
            expired: false,
            step: RoundStepView::Sleep,
        },
    )
}

/// The rounds as the next sample is taken up. When there is none left, the
/// daemon asks how old the focus is.
pub open spec fn next_sample(rounds: RoundsView) -> RoundsView {
    if rounds.pending.len() > 0 {
        at_step(
            RoundsView { pending: rounds.pending.skip(1), ..rounds },
            RoundStepView::Select(rounds.pending[0]),
        )
    } else if rounds.source is Socket && !rounds.expired {
        at_step(rounds, RoundStepView::ReadClock)
    } else {
        at_step(rounds, RoundStepView::Sleep)
    }
}

/// The rounds after an event. One that does not belong to the step changes
/// nothing.
pub open spec fn round_after(rounds: RoundsView, event: RoundEventView) -> RoundsView {
    match (rounds.step, event) {
        (RoundStepView::HandleUnits, RoundEventView::Done) => at_step(
            rounds,
            RoundStepView::ActivateDescendants,
        ),
        (RoundStepView::ActivateDescendants, RoundEventView::Done) => at_step(
            rounds,
            match rounds.source {
                FocusSource::Socket => RoundStepView::Receive,
                FocusSource::Provider => RoundStepView::Poll,
                FocusSource::Nowhere => RoundStepView::Sleep,
            },
        ),
        (RoundStepView::Receive, RoundEventView::Samples(samples)) => {
            let more = RoundsView { pending: samples, ..rounds };
            if samples.len() > 0 {
                at_step(more, RoundStepView::RestartClock)
            } else {
                next_sample(more)
            }
        },
        (RoundStepView::Poll, RoundEventView::Samples(samples)) => next_sample(
            RoundsView { pending: samples, ..rounds },
        ),
        (RoundStepView::RestartClock, RoundEventView::Done) => next_sample(rounds),
        (RoundStepView::Select(_), RoundEventView::Selected(pid)) => at_step(
            rounds,
            RoundStepView::Update(pid),
        ),
        (RoundStepView::Update(_), RoundEventView::Done) => next_sample(rounds),
        (RoundStepView::ReadClock, RoundEventView::Elapsed(ms)) => if stale(
            ms,
            rounds.stale_timeout_ms,
        ) {
            at_step(RoundsView { expired: true, ..rounds }, RoundStepView::Update(None))
        } else {
            at_step(rounds, RoundStepView::Sleep)
        },
        (RoundStepView::Sleep, RoundEventView::Done) => round_begun(rounds),
        _ => rounds,
    }
}

/// Whether a focus of that age holds no longer.
pub fn is_stale(elapsed_ms: u128, timeout_ms: u64) -> (yes: bool)
    ensures
        yes == stale(elapsed_ms, timeout_ms),
{
    elapsed_ms >= timeout_ms as u128
}

impl Rounds {
    /// The daemon's rounds. Without a socket they leave the focus alone.
    pub fn run_daemon(has_units: bool, has_socket: bool, stale_timeout_ms: u64) -> (rounds: Rounds)
        ensures
            rounds@ == first_round(
                has_units,
                if has_socket {
                    FocusSource::Socket
                } else {
                    FocusSource::Nowhere
                },
                stale_timeout_ms,
            ),
    {
        let source = if has_socket {
            FocusSource::Socket
        } else {
            FocusSource::Nowhere
        };
        Rounds::begin(has_units, source, stale_timeout_ms)
    }

    /// The rounds of the standalone process.
    pub fn run_standalone(has_units: bool) -> (rounds: Rounds)
        ensures
            rounds@ == first_round(has_units, FocusSource::Provider, 0),
    {
        Rounds::begin(has_units, FocusSource::Provider, 0)
    }

    fn begin(has_units: bool, source: FocusSource, stale_timeout_ms: u64) -> (rounds: Rounds)
        ensures
            rounds@ == first_round(has_units, source, stale_timeout_ms),
    {
        let mut rounds = Rounds {
            has_units,
            source,
            stale_timeout_ms,
            pending: Vec::new(),
            expired: false,
            step: RoundStep::Sleep,
        };
        rounds.begin_round();
        rounds
    }

    fn begin_round(&mut self)
        ensures
            final(self)@ == round_begun(old(self)@),
    {
        self.pending = Vec::new();
        self.expired = false;
        self.step = if self.has_units {
            RoundStep::HandleUnits
        } else {
            RoundStep::ActivateDescendants
        };
    }

    fn take_next(&mut self)
        ensures
            final(self)@ == next_sample(old(self)@),
    {
        if self.pending.len() > 0 {
            let seen = self.pending.remove(0);
            self.step = RoundStep::Select(seen);
            return;
        }
        self.step = match self.source {
            FocusSource::Socket => {
                if self.expired {
                    RoundStep::Sleep
                } else {
                    RoundStep::ReadClock
                }
            },
            _ => RoundStep::Sleep,
        };
    }

    /// Goes on to the next step.
    pub fn advance(&mut self, event: RoundEvent)
        ensures
            final(self)@ == round_after(old(self)@, event@),
    {
        match (&self.step, event) {
            (RoundStep::HandleUnits, RoundEvent::Done) => {
                self.step = RoundStep::ActivateDescendants;
            },
            (RoundStep::ActivateDescendants, RoundEvent::Done) => {
                self.step = match self.source {
                    FocusSource::Socket => RoundStep::Receive,
                    FocusSource::Provider => RoundStep::Poll,
                    FocusSource::Nowhere => RoundStep::Sleep,
                };
            },
            (RoundStep::Receive, RoundEvent::Samples(samples)) => {
                self.pending = samples;
                if self.pending.len() > 0 {
                    self.step = RoundStep::RestartClock;
                } else {
                    self.take_next();
                }
            },
            (RoundStep::Poll, RoundEvent::Samples(samples)) => {
                self.pending = samples;
                self.take_next();
            },
            (RoundStep::RestartClock, RoundEvent::Done) => self.take_next(),
            (RoundStep::Select(_), RoundEvent::Selected(pid)) => {
                self.step = RoundStep::Update(pid);
            },
            (RoundStep::Update(_), RoundEvent::Done) => self.take_next(),
            (RoundStep::ReadClock, RoundEvent::Elapsed(ms)) => {
                if is_stale(ms, self.stale_timeout_ms) {
                    self.expired = true;
                    self.step = RoundStep::Update(None);
                } else {
                    self.step = RoundStep::Sleep;
                }
            },
            (RoundStep::Sleep, RoundEvent::Done) => self.begin_round(),
            _ => {},
        }
    }
}

// ---------------------------------------------------------------------------
// The agent
// ---------------------------------------------------------------------------

/// What the agent has seen and sent.
#[derive(Debug)]
pub struct AgentState {
    /// The last sample of the window system.
    pub last_sample: Option<FocusSample>,
    /// The last line that was sent, empty before the first.
    pub last_sent: String,
}

#[verifier::ext_equal]
pub struct AgentView {
    pub last_sample: Option<sample::SampleView>,
    pub last_sent: Seq<char>,
}

pub open spec fn optional_sample(seen: Option<FocusSample>) -> Option<sample::SampleView> {
    match seen {
        Some(seen) => Some(seen@),
        None => None,
    }
}

impl View for AgentState {
    type V = AgentView;

    open spec fn view(&self) -> AgentView {
        AgentView {
            last_sample: optional_sample(self.last_sample),
            last_sent: self.last_sent@,
        }
    }
}

/// The sample that counts: a new one, or else the one before.
pub open spec fn current_sample(
    agent: AgentView,
    seen: Option<sample::SampleView>,
) -> Option<sample::SampleView> {
    if seen is Some {
        seen
    } else {
        agent.last_sample
    }
}

/// The line that is to be sent, if any: that of the current sample, when it
/// differs from the last or the last was sent long enough ago.
pub open spec fn line_to_send(
    agent: AgentView,
    seen: Option<sample::SampleView>,
    since_sent_ms: u128,
    heartbeat_ms: u64,
) -> Option<Seq<char>> {
    match current_sample(agent, seen) {
        Some(current) => if sample::serialized(current) != agent.last_sent || since_sent_ms
            >= heartbeat_ms {
            Some(sample::serialized(current))
        } else {
            None
        },
        None => None,
    }
}

/// The agent after a round.
pub open spec fn agent_after(
    agent: AgentView,
    seen: Option<sample::SampleView>,
    since_sent_ms: u128,
    heartbeat_ms: u64,
) -> AgentView {
    AgentView {
        last_sample: current_sample(agent, seen),
        last_sent: match line_to_send(agent, seen, since_sent_ms, heartbeat_ms) {
            Some(line) => line,
            None => agent.last_sent,
        },
    }
}

impl AgentState {
    /// The agent before it has seen anything.
    pub fn new() -> (agent: AgentState)
        ensures
            agent@ == (AgentView { last_sample: None, last_sent: seq![] }),
    {
        AgentState { last_sample: None, last_sent: String::new() }
    }

    /// One round: takes what the window system has to say, if anything, and
    /// gives the message that is to be sent, if one is.
    pub fn run_agent(
        &mut self,
        seen: Option<FocusSample>,
        since_sent_ms: u128,
        heartbeat_ms: u64,
    ) -> (message: Option<String>)
        ensures
            final(self)@ == agent_after(
                old(self)@,
                optional_sample(seen),
                since_sent_ms,
                heartbeat_ms,
            ),
            match line_to_send(old(self)@, optional_sample(seen), since_sent_ms, heartbeat_ms) {
                Some(line) => message is Some && message->0@ == line + seq!['\n'],
                None => message is None,
            },
    {
        if seen.is_some() {
            self.last_sample = seen;
        }
        match &self.last_sample {
            Some(current) => {
                let line = serialize_focus_sample(current);
                if line != self.last_sent || since_sent_ms >= heartbeat_ms as u128 {
                    let message = focus_message(current);
                    self.last_sent = line;
                    Some(message)
                } else {
                    None
                }
            },
            None => None,
        }
    }
}

// ---------------------------------------------------------------------------
// Laws
// ---------------------------------------------------------------------------

/// The event belongs to the step.
pub open spec fn round_fits(step: RoundStepView, event: RoundEventView) -> bool {
    match step {
        RoundStepView::Receive | RoundStepView::Poll => event is Samples,
        RoundStepView::Select(_) => event is Selected,
        RoundStepView::ReadClock => event is Elapsed,
        _ => event is Done,
    }
}

/// The rounds after a sequence of events.
pub open spec fn rounds_after(rounds: RoundsView, events: Seq<RoundEventView>) -> RoundsView
    decreases events.len(),
{
    if events.len() == 0 {
        rounds
    } else {
        round_after(rounds_after(rounds, events.drop_last()), events.last())
    }
}

/// Going through one sample: the process is told, and the policy takes it up.
pub open spec fn sample_events(pid: Option<u32>) -> Seq<RoundEventView> {
    seq![RoundEventView::Selected(pid), RoundEventView::Done]
}

/// Every sample of a round reaches the policy, one after the other in the
/// order in which they came: while one is being taken up, the next is the first
/// of those that are left.
pub proof fn samples_are_taken_up_in_order(rounds: RoundsView, pid: Option<u32>)
    requires
        rounds.step is Select,
    ensures
        rounds_after(rounds, sample_events(pid).take(1)).step == RoundStepView::Update(pid),
        rounds_after(rounds, sample_events(pid)) == next_sample(rounds),
{
    let events = sample_events(pid);
    assert(events.take(1) == seq![RoundEventView::Selected(pid)]);
    assert(events.drop_last() == events.take(1));
    assert(events.take(1).drop_last() == Seq::<RoundEventView>::empty());
    reveal_with_fuel(rounds_after, 3);
    assert(rounds_after(rounds, events.take(1)) == at_step(rounds, RoundStepView::Update(pid)));
    assert(rounds_after(rounds, events) == next_sample(rounds));
}

/// What is left to do in a round, apart from what samples bring.
spec fn steps_left(rounds: RoundsView) -> nat {
    let samples = 2 * rounds.pending.len();
    match rounds.step {
        RoundStepView::HandleUnits => 7,
        RoundStepView::ActivateDescendants => 6,
        RoundStepView::Receive | RoundStepView::Poll => 5,
        RoundStepView::RestartClock => samples + 4,
        RoundStepView::Select(_) => samples + 5,
        RoundStepView::Update(_) => samples + if rounds.expired {
            2nat
        } else {
            4nat
        },
        RoundStepView::ReadClock => samples + 3,
        RoundStepView::Sleep => 1,
    }
}

/// How many samples come with the events.
pub open spec fn samples_in(events: Seq<RoundEventView>) -> nat
    decreases events.len(),
{
    if events.len() == 0 {
        0
    } else {
        samples_in(events.drop_last()) + match events.last() {
            RoundEventView::Samples(samples) => samples.len(),
            _ => 0,
        }
    }
}

/// The events belong to the steps that they follow, and none of these steps is
/// the sleep that ends the round.
pub open spec fn within_a_round(rounds: RoundsView, events: Seq<RoundEventView>) -> bool
    decreases events.len(),
{
    events.len() > 0 ==> {
        let before = rounds_after(rounds, events.drop_last());
        &&& within_a_round(rounds, events.drop_last())
        &&& round_fits(before.step, events.last())
        &&& !(before.step is Sleep)
    }
}

proof fn lemma_round_ends(rounds: RoundsView, events: Seq<RoundEventView>)
    requires
        within_a_round(round_begun(rounds), events),
    ensures
        ({
            let after = rounds_after(round_begun(rounds), events);
            &&& events.len() + steps_left(after) <= 7 + 2 * samples_in(events)
            &&& (after.step is Sleep || after.step is HandleUnits
                || after.step is ActivateDescendants || after.step is Receive
                || after.step is Poll || after.step is ReadClock) ==> after.pending.len() == 0
            &&& after.expired ==> after.pending.len() == 0 && (after.step is Update
                || after.step is Sleep)
        }),
    decreases events.len(),
{
    if events.len() > 0 {
        lemma_round_ends(rounds, events.drop_last());
    }
}

/// A round comes to an end: it takes at most six events before the sleep, and
/// two more for each sample.
pub proof fn a_round_ends(rounds: RoundsView, events: Seq<RoundEventView>)
    requires
        within_a_round(round_begun(rounds), events),
    ensures
        events.len() <= 6 + 2 * samples_in(events),
        rounds_after(round_begun(rounds), events).step is Sleep ==> rounds_after(
            round_begun(rounds),
            events,
        ).pending.len() == 0,
{
    lemma_round_ends(rounds, events);
}

/// A round in which the daemon receives nothing lets the focus go exactly if
/// the last sample is too old.
pub proof fn a_stale_focus_is_let_go(rounds: RoundsView, elapsed_ms: u128)
    requires
        rounds.source is Socket,
        rounds.step is Receive,
        !rounds.expired,
    ensures
        ({
            let events = seq![
                RoundEventView::Samples(seq![]),
                RoundEventView::Elapsed(elapsed_ms),
            ];
            rounds_after(rounds, events).step == if elapsed_ms >= rounds.stale_timeout_ms {
                RoundStepView::Update(None)
            } else {
                RoundStepView::Sleep
            }
        }),
{
    let nothing = Seq::<sample::SampleView>::empty();
    let events = seq![RoundEventView::Samples(nothing), RoundEventView::Elapsed(elapsed_ms)];
    assert(events.drop_last() == seq![RoundEventView::Samples(nothing)]);
    assert(events.drop_last().drop_last() == Seq::<RoundEventView>::empty());
    reveal_with_fuel(rounds_after, 3);
}

/// A sample that differs from what was sent last is sent at once.
pub proof fn a_change_is_sent_at_once(
    agent: AgentView,
    seen: sample::SampleView,
    since_sent_ms: u128,
    heartbeat_ms: u64,
)
    requires
        sample::serialized(seen) != agent.last_sent,
    ensures
        line_to_send(agent, Some(seen), since_sent_ms, heartbeat_ms) == Some(
            sample::serialized(seen),
        ),
{
}

/// The first sample is sent, whatever it is.
pub proof fn the_first_sample_is_sent(
    seen: sample::SampleView,
    since_sent_ms: u128,
    heartbeat_ms: u64,
)
    ensures
        line_to_send(
            AgentView { last_sample: None, last_sent: seq![] },
            Some(seen),
            since_sent_ms,
            heartbeat_ms,
        ) == Some(sample::serialized(seen)),
{
    assert(sample::serialized(seen).len() > 0);
}

/// What was sent last is sent again exactly when the heartbeat is due, as long
/// as nothing else is seen.
pub proof fn the_heartbeat_repeats_the_last_line(
    agent: AgentView,
    current: sample::SampleView,
    since_sent_ms: u128,
    heartbeat_ms: u64,
)
    requires
        agent.last_sample == Some(current),
        agent.last_sent == sample::serialized(current),
    ensures
        line_to_send(agent, None, since_sent_ms, heartbeat_ms) == if since_sent_ms >= heartbeat_ms {
            Some(agent.last_sent)
        } else {
            None
        },
        agent_after(agent, None, since_sent_ms, heartbeat_ms) == agent,
{
}

/// The sample that counts is sent whenever the heartbeat is due, be it that the
/// window system has just told it or that it has told nothing new. Before that
/// it is sent exactly if its line is another than the one sent last. Either way
/// it is the one that the agent remembers, and its line is the last one sent.
pub proof fn the_current_sample_is_sent_when_due(
    agent: AgentView,
    seen: Option<sample::SampleView>,
    current: sample::SampleView,
    since_sent_ms: u128,
    heartbeat_ms: u64,
)
    requires
        seen == Some(current) || (seen is None && agent.last_sample == Some(current)),
    ensures
        since_sent_ms >= heartbeat_ms ==> line_to_send(agent, seen, since_sent_ms, heartbeat_ms)
            == Some(sample::serialized(current)),
        since_sent_ms < heartbeat_ms && sample::serialized(current) != agent.last_sent
            ==> line_to_send(agent, seen, since_sent_ms, heartbeat_ms) == Some(
            sample::serialized(current),
        ),
        since_sent_ms < heartbeat_ms && sample::serialized(current) == agent.last_sent
            ==> line_to_send(agent, seen, since_sent_ms, heartbeat_ms) is None,
        agent_after(agent, seen, since_sent_ms, heartbeat_ms).last_sample == Some(current),
        agent_after(agent, seen, since_sent_ms, heartbeat_ms).last_sent == sample::serialized(
            current,
        ),
{
}

/// Being told the same sample once more is the same as being told nothing: the
/// answer is the same, and so is the agent afterwards.
pub proof fn a_repeated_sample_is_no_news(
    agent: AgentView,
    same: sample::SampleView,
    since_sent_ms: u128,
    heartbeat_ms: u64,
)
    requires
        agent.last_sample == Some(same),
    ensures
        line_to_send(agent, Some(same), since_sent_ms, heartbeat_ms) == line_to_send(
            agent,
            None,
            since_sent_ms,
            heartbeat_ms,
        ),
        agent_after(agent, Some(same), since_sent_ms, heartbeat_ms) == agent_after(
            agent,
            None,
            since_sent_ms,
            heartbeat_ms,
        ),
{
}

/// As long as nothing has been seen nothing is sent, however long ago.
pub proof fn nothing_seen_is_nothing_sent(
    agent: AgentView,
    since_sent_ms: u128,
    heartbeat_ms: u64,
)
    requires
        agent.last_sample is None,
    ensures
        line_to_send(agent, None, since_sent_ms, heartbeat_ms) is None,
        agent_after(agent, None, since_sent_ms, heartbeat_ms) == agent,
{
}

/// A round begins with the units, where they are announced, and goes on with the
/// hierarchy. Then the focus is asked for where it is learned from.
pub proof fn rounds_begin_with_the_hierarchy(
    has_units: bool,
    source: FocusSource,
    stale_timeout_ms: u64,
    rounds: RoundsView,
)
    ensures
        ({
            let first = first_round(has_units, source, stale_timeout_ms);
            &&& first.has_units == has_units
            &&& first.source == source
            &&& first.stale_timeout_ms == stale_timeout_ms
            &&& first.pending.len() == 0
            &&& !first.expired
            &&& has_units ==> first.step is HandleUnits
            &&& !has_units ==> first.step is ActivateDescendants
        }),
        rounds.step is HandleUnits ==> round_after(rounds, RoundEventView::Done)
            == (RoundsView { step: RoundStepView::ActivateDescendants, ..rounds }),
        rounds.step is ActivateDescendants && rounds.source is Socket ==> round_after(
            rounds,
            RoundEventView::Done,
        ) == (RoundsView { step: RoundStepView::Receive, ..rounds }),
        rounds.step is ActivateDescendants && rounds.source is Provider ==> round_after(
            rounds,
            RoundEventView::Done,
        ) == (RoundsView { step: RoundStepView::Poll, ..rounds }),
        rounds.step is ActivateDescendants && rounds.source is Nowhere ==> round_after(
            rounds,
            RoundEventView::Done,
        ) == (RoundsView { step: RoundStepView::Sleep, ..rounds }),
        rounds.step is Sleep ==> round_after(rounds, RoundEventView::Done) == first_round(
            rounds.has_units,
            rounds.source,
            rounds.stale_timeout_ms,
        ),
{
}

/// Samples that were received restart the clock before any is taken up. All are
/// taken up, the first one first. When none is left, the daemon reads the clock,
/// once in a round, and whoever polls goes to sleep.
pub proof fn samples_restart_the_clock(rounds: RoundsView, samples: Seq<sample::SampleView>)
    ensures
        rounds.step is Receive && samples.len() > 0 ==> round_after(
            rounds,
            RoundEventView::Samples(samples),
        ) == (RoundsView { step: RoundStepView::RestartClock, pending: samples, ..rounds }),
        rounds.step is Poll && samples.len() > 0 ==> round_after(
            rounds,
            RoundEventView::Samples(samples),
        ) == (RoundsView {
            step: RoundStepView::Select(samples[0]),
            pending: samples.skip(1),
            ..rounds
        }),
        rounds.step is Receive && rounds.source is Socket && !rounds.expired ==> round_after(
            rounds,
            RoundEventView::Samples(seq![]),
        ).step is ReadClock,
        rounds.step is Poll && !(rounds.source is Socket) ==> round_after(
            rounds,
            RoundEventView::Samples(seq![]),
        ).step is Sleep,
        rounds.step is RestartClock || rounds.step is Update ==> {
            let after = round_after(rounds, RoundEventView::Done);
            &&& rounds.pending.len() > 0 ==> after == (RoundsView {
                step: RoundStepView::Select(rounds.pending[0]),
                pending: rounds.pending.skip(1),
                ..rounds
            })
            &&& rounds.pending.len() == 0 && rounds.source is Socket && !rounds.expired ==> after
                == (RoundsView { step: RoundStepView::ReadClock, ..rounds })
            &&& rounds.pending.len() == 0 && (!(rounds.source is Socket) || rounds.expired)
                ==> after == (RoundsView { step: RoundStepView::Sleep, ..rounds })
        },
{
}

/// The process that was told for a sample is the one that the policy takes up.
/// A focus too old is let go, once, and a younger one stays.
pub proof fn what_is_told_is_taken_up(rounds: RoundsView, pid: Option<u32>, elapsed_ms: u128)
    ensures
        rounds.step is Select ==> round_after(rounds, RoundEventView::Selected(pid)) == (
        RoundsView { step: RoundStepView::Update(pid), ..rounds }),
        rounds.step is ReadClock && elapsed_ms >= rounds.stale_timeout_ms ==> round_after(
            rounds,
            RoundEventView::Elapsed(elapsed_ms),
        ) == (RoundsView { step: RoundStepView::Update(None), expired: true, ..rounds }),
        rounds.step is ReadClock && elapsed_ms < rounds.stale_timeout_ms ==> round_after(
            rounds,
            RoundEventView::Elapsed(elapsed_ms),
        ) == (RoundsView { step: RoundStepView::Sleep, ..rounds }),
{
}

/// An event that does not belong to the step changes nothing, and none changes
/// what the rounds were begun with.
pub proof fn other_events_change_nothing(rounds: RoundsView, event: RoundEventView)
    ensures
        !round_fits(rounds.step, event) ==> round_after(rounds, event) == rounds,
        round_after(rounds, event).has_units == rounds.has_units,
        round_after(rounds, event).source == rounds.source,
        round_after(rounds, event).stale_timeout_ms == rounds.stale_timeout_ms,
{
}

/// What was seen is taken as it is.
pub proof fn what_was_seen_is_taken_as_it_is(seen: FocusSample)
    ensures
        optional_sample(Some(seen)) == Some(seen@),
        optional_sample(None) is None,
{
}

} // verus!
