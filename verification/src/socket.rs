//! The daemon's socket: how it is set up, and whose focus samples are taken
//! from it.

use crate::sample;
use crate::sample::{read_focus_samples, FocusSample};
use crate::text;
use vstd::prelude::*;

verus! {

// ---------------------------------------------------------------------------
// Setting the socket up
// ---------------------------------------------------------------------------

/// What stands at the path of the socket.
#[derive(Clone, Copy, Debug, PartialEq, Eq, Structural)]
pub enum PathKind {
    Missing,
    Socket,
    Other,
}

/// What is to be done next to set the socket up.
#[derive(Clone, Copy, Debug, PartialEq, Eq, Structural)]
pub enum SetupStep {
    CreateDirectory,
    Inspect,
    Remove,
    Bind,
    SetNonblocking,
    SetOwner(u32),
    SetMode(u32),
    /// The socket can be used.
    Ready,
    /// There is no socket.
    GivenUp,
}

/// What came of a step.
#[derive(Debug)]
pub enum SetupEvent {
    Done,
    Found(PathKind),
    Failed(String),
}

#[verifier::ext_equal]
pub enum SetupEventView {
    Done,
    Found(PathKind),
    Failed(Seq<char>),
}

impl View for SetupEvent {
    type V = SetupEventView;

    open spec fn view(&self) -> SetupEventView {
        match *self {
            SetupEvent::Done => SetupEventView::Done,
            SetupEvent::Found(kind) => SetupEventView::Found(kind),
            SetupEvent::Failed(error) => SetupEventView::Failed(error@),
        }
    }
}

/// A socket that is being set up.
#[derive(Debug)]
pub struct SocketSetup {
    pub path: String,
    /// The directory that is to hold the socket, if the path names one.
    pub directory: Option<String>,
    pub mode: u32,
    pub owner: Option<u32>,
    pub step: SetupStep,
}

#[verifier::ext_equal]
pub struct SetupView {
    pub path: Seq<char>,
    pub directory: Option<Seq<char>>,
    pub mode: u32,
    pub owner: Option<u32>,
    pub step: SetupStep,
}

impl View for SocketSetup {
    type V = SetupView;

    open spec fn view(&self) -> SetupView {
        SetupView {
            path: self.path@,
            directory: sample::optional_text(self.directory),
            mode: self.mode,
            owner: self.owner,
            step: self.step,
        }
    }
}

/// The socket before anything has been done.
pub open spec fn setup_begun(
    path: Seq<char>,
    directory: Option<Seq<char>>,
    mode: u32,
    owner: Option<u32>,
) -> SetupView {
    let step = if directory is Some {
        SetupStep::CreateDirectory
    } else {
        SetupStep::Inspect
    };
    SetupView { path, directory, mode, owner, step }
}

/// The step that follows one that was done.
pub open spec fn step_after(setup: SetupView) -> SetupStep {
    match setup.step {
        SetupStep::CreateDirectory => SetupStep::Inspect,
        SetupStep::Remove => SetupStep::Bind,
        SetupStep::Bind => SetupStep::SetNonblocking,
        SetupStep::SetNonblocking => match setup.owner {
            Some(uid) => SetupStep::SetOwner(uid),
            None => SetupStep::SetMode(setup.mode),
        },
        SetupStep::SetOwner(_) => SetupStep::SetMode(setup.mode),
        SetupStep::SetMode(_) => SetupStep::Ready,
        step => step,
    }
}

/// The step that follows an event. Only a missing path or a socket leads on
/// from the inspection, and every failure ends the setup but those to set the
/// owner and the mode. An event that does not belong to the step changes
/// nothing.
pub open spec fn next_step(setup: SetupView, event: SetupEventView) -> SetupStep {
    match event {
        SetupEventView::Done => step_after(setup),
        SetupEventView::Found(kind) => if setup.step is Inspect {
            match kind {
                PathKind::Missing => SetupStep::Bind,
                PathKind::Socket => SetupStep::Remove,
                PathKind::Other => SetupStep::GivenUp,
            }
        } else {
            setup.step
        },
        SetupEventView::Failed(_) => match setup.step {
            SetupStep::SetOwner(_) | SetupStep::SetMode(_) | SetupStep::Ready => step_after(setup),
            _ => SetupStep::GivenUp,
        },
    }
}

/// The warning that goes with an event, if one does.
pub open spec fn setup_warning(setup: SetupView, event: SetupEventView) -> Option<Seq<char>> {
    match event {
        SetupEventView::Done => None,
        SetupEventView::Found(kind) => if setup.step is Inspect && kind is Other {
            Some("WARNING: Refusing to remove non-socket path '"@ + setup.path + "'"@)
        } else {
            None
        },
        SetupEventView::Failed(error) => match setup.step {
            SetupStep::CreateDirectory => Some(
                "WARNING: Could not create socket directory '"@ + sample::text_or_empty(
                    setup.directory,
                ) + "': "@ + error,
            ),
            SetupStep::Inspect => Some(
                "WARNING: Could not inspect daemon socket path '"@ + setup.path + "': "@ + error,
            ),
            SetupStep::Remove => Some(
                "WARNING: Could not remove stale daemon socket '"@ + setup.path + "': "@ + error,
            ),
            SetupStep::Bind => Some(
                "WARNING: Could not bind daemon socket '"@ + setup.path + "': "@ + error,
            ),
            SetupStep::SetNonblocking => Some(
                "WARNING: Could not set daemon socket nonblocking mode: "@ + error,
            ),
            SetupStep::SetOwner(uid) => Some(
                "WARNING: Could not set daemon socket owner uid to "@ + text::decimal(uid as nat)
                    + ": "@ + error,
            ),
            SetupStep::SetMode(_) => Some(
                "WARNING: Could not set daemon socket permissions: "@ + error,
            ),
            SetupStep::Ready | SetupStep::GivenUp => None,
        },
    }
}

/// A text, a quoted one and another.
fn between(start: &str, quoted: &str, end: &str) -> (r: String)
    ensures
        r@ == start@ + quoted@ + end@,
{
    start.to_owned().concat(quoted).concat(end)
}

/// What is said of a failure that concerns a path.
fn path_failure(start: &str, path: &str, error: &str) -> (r: String)
    ensures
        r@ == start@ + path@ + "': "@ + error@,
{
    between(start, path, "': ").concat(error)
}

/// Decides what follows the inspection of the socket's path: nothing is in
/// the way, a stale socket is to be removed, or something else is left alone.
pub fn remove_stale_socket(found: PathKind) -> (next: SetupStep)
    ensures
        next == (match found {
            PathKind::Missing => SetupStep::Bind,
            PathKind::Socket => SetupStep::Remove,
            PathKind::Other => SetupStep::GivenUp,
        }),
{
    match found {
        PathKind::Missing => SetupStep::Bind,
        PathKind::Socket => SetupStep::Remove,
        PathKind::Other => SetupStep::GivenUp,
    }
}

/// Begins to set the socket up.
pub fn setup_daemon_socket(
    path: String,
    directory: Option<String>,
    socket_mode: u32,
    socket_owner_uid: Option<u32>,
) -> (setup: SocketSetup)
    ensures
        setup@ == setup_begun(
            path@,
            sample::optional_text(directory),
            socket_mode,
            socket_owner_uid,
        ),
{
    let step = if directory.is_some() {
        SetupStep::CreateDirectory
    } else {
        SetupStep::Inspect
    };
    SocketSetup { path, directory, mode: socket_mode, owner: socket_owner_uid, step }
}

impl SocketSetup {
    /// Goes on to the next step, and gives the warning that is due, if any.
    pub fn advance(&mut self, event: SetupEvent) -> (warning: Option<String>)
        ensures
            final(self)@ == (SetupView { step: next_step(old(self)@, event@), ..old(self)@ }),
            sample::optional_text(warning) == setup_warning(old(self)@, event@),
    {
        let warning = self.warning_of(&event);
        self.step = match event {
            SetupEvent::Done => self.following(),
            SetupEvent::Found(kind) => {
                match self.step {
                    SetupStep::Inspect => remove_stale_socket(kind),
                    step => step,
                }
            },
            SetupEvent::Failed(_) => {
                match self.step {
                    SetupStep::SetOwner(_) => self.following(),
                    SetupStep::SetMode(_) => self.following(),
                    SetupStep::Ready => SetupStep::Ready,
                    _ => SetupStep::GivenUp,
                }
            },
        };
        warning
    }

    fn following(&self) -> (step: SetupStep)
        ensures
            step == step_after(self@),
    {
        match self.step {
            SetupStep::CreateDirectory => SetupStep::Inspect,
            SetupStep::Remove => SetupStep::Bind,
            SetupStep::Bind => SetupStep::SetNonblocking,
            SetupStep::SetNonblocking => {
                match self.owner {
                    Some(uid) => SetupStep::SetOwner(uid),
                    None => SetupStep::SetMode(self.mode),
                }
            },
            SetupStep::SetOwner(_) => SetupStep::SetMode(self.mode),
            SetupStep::SetMode(_) => SetupStep::Ready,
            step => step,
        }
    }

    fn warning_of(&self, event: &SetupEvent) -> (warning: Option<String>)
        ensures
            sample::optional_text(warning) == setup_warning(self@, event@),
    {
        let path = self.path.as_str();
        match event {
            SetupEvent::Done => None,
            SetupEvent::Found(kind) => {
                match (self.step, kind) {
                    (SetupStep::Inspect, PathKind::Other) => Some(
                        between("WARNING: Refusing to remove non-socket path '", path, "'"),
                    ),
                    _ => None,
                }
            },
            SetupEvent::Failed(error) => {
                let error = error.as_str();
                match self.step {
                    SetupStep::CreateDirectory => {
                        let start = "WARNING: Could not create socket directory '";
                        match &self.directory {
                            Some(directory) => Some(
                                path_failure(start, directory.as_str(), error),
                            ),
                            None => {
                                let nothing = String::new();
                                assert(nothing@ == Seq::<char>::empty());
                                Some(path_failure(start, nothing.as_str(), error))
                            },
                        }
                    },
                    SetupStep::Inspect => Some(
                        path_failure(
                            "WARNING: Could not inspect daemon socket path '",
                            path,
                            error,
                        ),
                    ),
                    SetupStep::Remove => Some(
                        path_failure(
                            "WARNING: Could not remove stale daemon socket '",
                            path,
                            error,
                        ),
                    ),
                    SetupStep::Bind => Some(
                        path_failure("WARNING: Could not bind daemon socket '", path, error),
                    ),
                    SetupStep::SetNonblocking => Some(
                        "WARNING: Could not set daemon socket nonblocking mode: ".to_owned().concat(
                            error,
                        ),
                    ),
                    SetupStep::SetOwner(uid) => {
                        let mut r =
                            "WARNING: Could not set daemon socket owner uid to ".to_owned();
                        text::push_decimal(&mut r, uid as u64);
                        Some(r.concat(": ").concat(error))
                    },
                    SetupStep::SetMode(_) => Some(
                        "WARNING: Could not set daemon socket permissions: ".to_owned().concat(
                            error,
                        ),
                    ),
                    SetupStep::Ready => None,
                    SetupStep::GivenUp => None,
                }
            },
        }
    }
}

// ---------------------------------------------------------------------------
// Taking focus samples
// ---------------------------------------------------------------------------

/// What is to be done next to take focus samples.
#[derive(Clone, Copy, Debug, PartialEq, Eq, Structural)]
pub enum ReceiveStep {
    /// The next connection is to be accepted.
    Accept,
    /// The connection is to be read to its end.
    Read,
    /// All samples are there.
    Stop,
}

/// What came of a step.
#[derive(Debug)]
pub enum ReceiveEvent {
    /// A connection of that user, if the user could be told.
    Connected(Option<u32>),
    /// What the connection carried, if it could be read.
    Payload(Option<String>),
    /// No connection waits.
    Empty,
    Failed(String),
}

#[verifier::ext_equal]
pub enum ReceiveEventView {
    Connected(Option<u32>),
    Payload(Option<Seq<char>>),
    Empty,
    Failed(Seq<char>),
}

impl View for ReceiveEvent {
    type V = ReceiveEventView;

    open spec fn view(&self) -> ReceiveEventView {
        match *self {
            ReceiveEvent::Connected(peer) => ReceiveEventView::Connected(peer),
            ReceiveEvent::Payload(payload) => ReceiveEventView::Payload(
                sample::optional_text(payload),
            ),
            ReceiveEvent::Empty => ReceiveEventView::Empty,
            ReceiveEvent::Failed(error) => ReceiveEventView::Failed(error@),
        }
    }
}

/// The taking of focus samples.
#[derive(Debug)]
pub struct FocusReceiver {
    /// The user whose samples are taken, if only one's are.
    pub expected_uid: Option<u32>,
    pub step: ReceiveStep,
    pub samples: Vec<FocusSample>,
}

#[verifier::ext_equal]
pub struct ReceiverView {
    pub expected_uid: Option<u32>,
    pub step: ReceiveStep,
    pub samples: Seq<sample::SampleView>,
}

impl View for FocusReceiver {
    type V = ReceiverView;

    open spec fn view(&self) -> ReceiverView {
        ReceiverView {
            expected_uid: self.expected_uid,
            step: self.step,
            samples: sample::sample_views(self.samples@),
        }
    }
}

/// Samples are taken from that user.
pub open spec fn trusted(expected_uid: Option<u32>, peer: Option<u32>) -> bool {
    expected_uid is Some ==> peer == expected_uid
}

/// The warning about a user whose samples are not taken.
pub open spec fn peer_warning(expected: u32, peer: Option<u32>) -> Seq<char> {
    match peer {
        Some(uid) => "WARNING: Ignoring focus sample from uid "@ + text::decimal(uid as nat)
            + ", expected uid "@ + text::decimal(expected as nat),
        None => "WARNING: Could not verify peer uid for focus sample; ignoring connection"@,
    }
}

/// The receiver before the first connection.
pub open spec fn receiving(expected_uid: Option<u32>) -> ReceiverView {
    ReceiverView { expected_uid, step: ReceiveStep::Accept, samples: seq![] }
}

/// The receiver after an event. One that does not belong to the step changes
/// nothing.
pub open spec fn heard(receiver: ReceiverView, event: ReceiveEventView) -> ReceiverView {
    match (receiver.step, event) {
        (ReceiveStep::Accept, ReceiveEventView::Connected(peer)) => if trusted(
            receiver.expected_uid,
            peer,
        ) {
            ReceiverView { step: ReceiveStep::Read, ..receiver }
        } else {
            receiver
        },
        (ReceiveStep::Read, ReceiveEventView::Payload(payload)) => ReceiverView {
            step: ReceiveStep::Accept,
            samples: match payload {
                Some(payload) => receiver.samples + sample::received(payload),
                None => receiver.samples,
            },
            ..receiver
        },
        (ReceiveStep::Accept, ReceiveEventView::Empty | ReceiveEventView::Failed(_)) =>
            ReceiverView { step: ReceiveStep::Stop, ..receiver },
        _ => receiver,
    }
}

/// The warning that goes with an event, if one does.
pub open spec fn receive_warning(receiver: ReceiverView, event: ReceiveEventView) -> Option<
    Seq<char>,
> {
    match (receiver.step, event) {
        (ReceiveStep::Accept, ReceiveEventView::Connected(peer)) => if trusted(
            receiver.expected_uid,
            peer,
        ) {
            None
        } else {
            Some(peer_warning(receiver.expected_uid->0, peer))
        },
        (ReceiveStep::Accept, ReceiveEventView::Failed(error)) => Some(
            "WARNING: Focus socket receive failed: "@ + error,
        ),
        _ => None,
    }
}

/// Begins to take focus samples.
pub fn receive_focus_samples(expected_uid: Option<u32>) -> (receiver: FocusReceiver)
    ensures
        receiver@ == receiving(expected_uid),
{
    FocusReceiver { expected_uid, step: ReceiveStep::Accept, samples: Vec::new() }
}

fn stranger_warning(expected: u32, peer: Option<u32>) -> (r: String)
    ensures
        r@ == peer_warning(expected, peer),
{
    match peer {
        Some(uid) => {
            let mut r = "WARNING: Ignoring focus sample from uid ".to_owned();
            text::push_decimal(&mut r, uid as u64);
            let mut r = r.concat(", expected uid ");
            text::push_decimal(&mut r, expected as u64);
            r
        },
        None => "WARNING: Could not verify peer uid for focus sample; ignoring connection".to_owned(),
    }
}

impl FocusReceiver {
    /// Goes on to the next step, and gives the warning that is due, if any.
    pub fn advance(&mut self, event: ReceiveEvent) -> (warning: Option<String>)
        ensures
            final(self)@ == heard(old(self)@, event@),
            sample::optional_text(warning) == receive_warning(old(self)@, event@),
    {
        match (self.step, event) {
            (ReceiveStep::Accept, ReceiveEvent::Connected(peer)) => {
                if let Some(expected) = self.expected_uid {
                    if peer != Some(expected) {
                        return Some(stranger_warning(expected, peer));
                    }
                }
                self.step = ReceiveStep::Read;
                None
            },
            (ReceiveStep::Read, ReceiveEvent::Payload(payload)) => {
                self.step = ReceiveStep::Accept;
                if let Some(payload) = payload {
                    let mut more = read_focus_samples(payload.as_str());
                    let ghost before = self.samples@;
                    let ghost added = more@;
                    self.samples.append(&mut more);
                    assert(sample::sample_views(before + added) == sample::sample_views(before)
                        + sample::sample_views(added));
                }
                None
            },
            (ReceiveStep::Accept, ReceiveEvent::Empty) => {
                self.step = ReceiveStep::Stop;
                None
            },
            (ReceiveStep::Accept, ReceiveEvent::Failed(error)) => {
                self.step = ReceiveStep::Stop;
                Some("WARNING: Focus socket receive failed: ".to_owned().concat(error.as_str()))
            },
            _ => None,
        }
    }
}

// ---------------------------------------------------------------------------
// Laws
// ---------------------------------------------------------------------------

/// The setup after a sequence of events.
pub open spec fn setup_after(setup: SetupView, events: Seq<SetupEventView>) -> SetupView
    decreases events.len(),
{
    if events.len() == 0 {
        setup
    } else {
        let before = setup_after(setup, events.drop_last());
        SetupView { step: next_step(before, events.last()), ..before }
    }
}

/// Some step of the setup came to that.
pub open spec fn came_to(
    setup: SetupView,
    events: Seq<SetupEventView>,
    step: SetupStep,
    event: SetupEventView,
) -> bool {
    exists|k: int|
        0 <= k < events.len() && setup_after(setup, #[trigger] events.take(k)).step == step
            && events[k] == event
}

proof fn lemma_came_to_before(
    setup: SetupView,
    events: Seq<SetupEventView>,
    step: SetupStep,
    event: SetupEventView,
)
    requires
        events.len() > 0,
        came_to(setup, events.drop_last(), step, event),
    ensures
        came_to(setup, events, step, event),
{
    let before = events.drop_last();
    let k = choose|k: int|
        0 <= k < before.len() && setup_after(setup, #[trigger] before.take(k)).step == step
            && before[k] == event;
    assert(events.take(k) == before.take(k));
    assert(events[k] == event);
}

proof fn lemma_came_to_now(setup: SetupView, events: Seq<SetupEventView>)
    requires
        events.len() > 0,
    ensures
        came_to(
            setup,
            events,
            setup_after(setup, events.drop_last()).step,
            events.last(),
        ),
{
    let k = events.len() - 1;
    assert(events.take(k) == events.drop_last());
    assert(events[k] == events.last());
}

/// The steps before the socket is bound have been taken.
spec fn past_binding(step: SetupStep) -> bool {
    step is SetNonblocking || past_nonblocking(step)
}

spec fn past_nonblocking(step: SetupStep) -> bool {
    step is SetOwner || step is SetMode || step is Ready
}

proof fn lemma_setup(setup: SetupView, events: Seq<SetupEventView>)
    requires
        setup.step is CreateDirectory || setup.step is Inspect,
    ensures
        ({
            let after = setup_after(setup, events);
            &&& after == (SetupView { step: after.step, ..setup })
            &&& past_binding(after.step) ==> came_to(
                setup,
                events,
                SetupStep::Bind,
                SetupEventView::Done,
            )
            &&& past_nonblocking(after.step) ==> came_to(
                setup,
                events,
                SetupStep::SetNonblocking,
                SetupEventView::Done,
            )
            &&& after.step is Remove ==> came_to(
                setup,
                events,
                SetupStep::Inspect,
                SetupEventView::Found(PathKind::Socket),
            )
            &&& after.step is SetOwner ==> setup.owner == Some(after.step->SetOwner_0)
            &&& after.step is SetMode ==> after.step->SetMode_0 == setup.mode
        }),
    decreases events.len(),
{
    if events.len() > 0 {
        let before = events.drop_last();
        lemma_setup(setup, before);
        let mid = setup_after(setup, before);
        let after = setup_after(setup, events);
        lemma_came_to_now(setup, events);
        if past_binding(mid.step) {
            lemma_came_to_before(setup, events, SetupStep::Bind, SetupEventView::Done);
        }
        if past_nonblocking(mid.step) {
            lemma_came_to_before(setup, events, SetupStep::SetNonblocking, SetupEventView::Done);
        }
        if mid.step is Remove {
            lemma_came_to_before(
                setup,
                events,
                SetupStep::Inspect,
                SetupEventView::Found(PathKind::Socket),
            );
        }
    }
}

/// Nothing but a socket is ever removed.
pub proof fn only_a_socket_is_removed(
    path: Seq<char>,
    directory: Option<Seq<char>>,
    mode: u32,
    owner: Option<u32>,
    events: Seq<SetupEventView>,
)
    ensures
        ({
            let setup = setup_begun(path, directory, mode, owner);
            setup_after(setup, events).step is Remove ==> came_to(
                setup,
                events,
                SetupStep::Inspect,
                SetupEventView::Found(PathKind::Socket),
            )
        }),
{
    lemma_setup(setup_begun(path, directory, mode, owner), events);
}

/// A socket that is ready was bound and made nonblocking. The mode that it is
/// given is the one that was asked for, and so is its owner.
pub proof fn a_ready_socket_was_set_up(
    path: Seq<char>,
    directory: Option<Seq<char>>,
    mode: u32,
    owner: Option<u32>,
    events: Seq<SetupEventView>,
)
    ensures
        ({
            let setup = setup_begun(path, directory, mode, owner);
            let step = setup_after(setup, events).step;
            &&& step is Ready ==> came_to(setup, events, SetupStep::Bind, SetupEventView::Done)
            &&& step is Ready ==> came_to(
                setup,
                events,
                SetupStep::SetNonblocking,
                SetupEventView::Done,
            )
            &&& step is SetMode ==> step == SetupStep::SetMode(mode)
            &&& step is SetOwner ==> owner == Some(step->SetOwner_0)
        }),
{
    lemma_setup(setup_begun(path, directory, mode, owner), events);
}

/// The receiver after a sequence of events.
pub open spec fn heard_all(receiver: ReceiverView, events: Seq<ReceiveEventView>) -> ReceiverView
    decreases events.len(),
{
    if events.len() == 0 {
        receiver
    } else {
        heard(heard_all(receiver, events.drop_last()), events.last())
    }
}

/// Where only one user's samples are taken and that user does not connect,
/// nothing is read and there are no samples.
pub proof fn strangers_are_not_heard(uid: u32, events: Seq<ReceiveEventView>)
    requires
        forall|k: int|
            0 <= k < events.len() ==> #[trigger] events[k] != ReceiveEventView::Connected(
                Some(uid),
            ),
    ensures
        heard_all(receiving(Some(uid)), events).samples.len() == 0,
        !(heard_all(receiving(Some(uid)), events).step is Read),
        heard_all(receiving(Some(uid)), events).expected_uid == Some(uid),
    decreases events.len(),
{
    if events.len() > 0 {
        let before = events.drop_last();
        assert forall|k: int| 0 <= k < before.len() implies #[trigger] before[k]
            != ReceiveEventView::Connected(Some(uid)) by {
            assert(events[k] == before[k]);
        }
        strangers_are_not_heard(uid, before);
        assert(events[events.len() - 1] == events.last());
    }
}

/// What a trusted connection carries is taken, after all that came before.
pub proof fn trusted_peers_are_heard(
    receiver: ReceiverView,
    peer: Option<u32>,
    payload: Seq<char>,
)
    requires
        receiver.step is Accept,
        trusted(receiver.expected_uid, peer),
    ensures
        heard(
            heard(receiver, ReceiveEventView::Connected(peer)),
            ReceiveEventView::Payload(Some(payload)),
        ) == (ReceiverView { samples: receiver.samples + sample::received(payload), ..receiver }),
{
}

/// A connection: the user at the other end, if it could be told, and what was
/// read from it, if it could be read.
#[verifier::ext_equal]
pub struct ConnectionView {
    pub peer: Option<u32>,
    pub payload: Option<Seq<char>>,
}

/// What comes of a connection. One that is not trusted is not read.
pub open spec fn events_of(expected_uid: Option<u32>, connection: ConnectionView) -> Seq<
    ReceiveEventView,
> {
    if trusted(expected_uid, connection.peer) {
        seq![
            ReceiveEventView::Connected(connection.peer),
            ReceiveEventView::Payload(connection.payload),
        ]
    } else {
        seq![ReceiveEventView::Connected(connection.peer)]
    }
}

/// What comes of connections, one after the other.
pub open spec fn all_events_of(
    expected_uid: Option<u32>,
    connections: Seq<ConnectionView>,
) -> Seq<ReceiveEventView>
    decreases connections.len(),
{
    if connections.len() == 0 {
        seq![]
    } else {
        all_events_of(expected_uid, connections.drop_last()) + events_of(
            expected_uid,
            connections.last(),
        )
    }
}

/// The samples that the trusted connections carry, in order.
pub open spec fn carried_by_trusted(
    expected_uid: Option<u32>,
    connections: Seq<ConnectionView>,
) -> Seq<sample::SampleView>
    decreases connections.len(),
{
    if connections.len() == 0 {
        seq![]
    } else {
        let before = carried_by_trusted(expected_uid, connections.drop_last());
        match connections.last().payload {
            Some(payload) if trusted(expected_uid, connections.last().peer) => before
                + sample::received(payload),
            _ => before,
        }
    }
}

proof fn lemma_heard_all_concat(
    receiver: ReceiverView,
    a: Seq<ReceiveEventView>,
    b: Seq<ReceiveEventView>,
)
    ensures
        heard_all(receiver, a + b) == heard_all(heard_all(receiver, a), b),
    decreases b.len(),
{
    if b.len() == 0 {
        assert(a + b == a);
    } else {
        assert((a + b).drop_last() == a + b.drop_last());
        lemma_heard_all_concat(receiver, a, b.drop_last());
    }
}

/// Whatever connections come, trusted and not, the samples are those that the
/// trusted ones carry, in the order in which they came, and no others.
pub proof fn trusted_connections_alone_are_heard(
    expected_uid: Option<u32>,
    connections: Seq<ConnectionView>,
)
    ensures
        heard_all(receiving(expected_uid), all_events_of(expected_uid, connections)) == (
        ReceiverView {
            samples: carried_by_trusted(expected_uid, connections),
            ..receiving(expected_uid)
        }),
    decreases connections.len(),
{
    if connections.len() > 0 {
        let before = connections.drop_last();
        let last = connections.last();
        trusted_connections_alone_are_heard(expected_uid, before);
        let events = events_of(expected_uid, last);
        lemma_heard_all_concat(
            receiving(expected_uid),
            all_events_of(expected_uid, before),
            events,
        );
        reveal_with_fuel(heard_all, 3);
        let receiver = heard_all(receiving(expected_uid), all_events_of(expected_uid, before));
        if trusted(expected_uid, last.peer) {
            let first = events.drop_last();
            assert(first == seq![ReceiveEventView::Connected(last.peer)]);
            assert(first.drop_last() == Seq::<ReceiveEventView>::empty());
            assert(heard_all(receiver, first) == heard(
                receiver,
                ReceiveEventView::Connected(last.peer),
            ));
        } else {
            assert(events.drop_last() == Seq::<ReceiveEventView>::empty());
        }
    }
}

/// The setup begins with the directory where there is one and with the
/// inspection where there is none, and holds what it was given.
pub proof fn a_setup_begins_with_the_directory(
    path: Seq<char>,
    directory: Seq<char>,
    mode: u32,
    owner: Option<u32>,
)
    ensures
        setup_begun(path, Some(directory), mode, owner) == (SetupView {
            path,
            directory: Some(directory),
            mode,
            owner,
            step: SetupStep::CreateDirectory,
        }),
        setup_begun(path, None, mode, owner) == (SetupView {
            path,
            directory: None,
            mode,
            owner,
            step: SetupStep::Inspect,
        }),
{
}

/// What follows a step that was done: after the directory the path is inspected.
/// What is not there can be bound, a socket is removed first, and anything else
/// ends the setup. A bound socket is made nonblocking, then given its owner if it
/// is to have one, and then its mode.
pub proof fn a_setup_goes_step_by_step(setup: SetupView, kind: PathKind)
    ensures
        setup.step is CreateDirectory ==> next_step(setup, SetupEventView::Done) is Inspect,
        setup.step is Inspect ==> {
            &&& next_step(setup, SetupEventView::Found(PathKind::Missing)) is Bind
            &&& next_step(setup, SetupEventView::Found(PathKind::Socket)) is Remove
            &&& next_step(setup, SetupEventView::Found(PathKind::Other)) is GivenUp
            &&& next_step(setup, SetupEventView::Done) is Inspect
        },
        setup.step is Remove ==> next_step(setup, SetupEventView::Done) is Bind,
        setup.step is Bind ==> next_step(setup, SetupEventView::Done) is SetNonblocking,
        setup.step is SetNonblocking && setup.owner is None ==> next_step(
            setup,
            SetupEventView::Done,
        ) == SetupStep::SetMode(setup.mode),
        setup.step is SetNonblocking && setup.owner is Some ==> Some(
            next_step(setup, SetupEventView::Done),
        ) == match setup.owner {
            Some(uid) => Some(SetupStep::SetOwner(uid)),
            None => None,
        },
        setup.step is SetOwner ==> next_step(setup, SetupEventView::Done) == SetupStep::SetMode(
            setup.mode,
        ),
        setup.step is SetMode ==> next_step(setup, SetupEventView::Done) is Ready,
        !(setup.step is Inspect) ==> next_step(setup, SetupEventView::Found(kind)) == setup.step,
{
}

/// A failure ends the setup, except that a socket whose owner or mode could not
/// be set is used all the same. Nothing changes a setup that is over.
pub proof fn failures_end_a_setup(setup: SetupView, error: Seq<char>, event: SetupEventView)
    ensures
        setup.step is CreateDirectory || setup.step is Inspect || setup.step is Remove
            || setup.step is Bind || setup.step is SetNonblocking ==> next_step(
            setup,
            SetupEventView::Failed(error),
        ) is GivenUp,
        setup.step is SetOwner ==> next_step(setup, SetupEventView::Failed(error))
            == SetupStep::SetMode(setup.mode),
        setup.step is SetMode ==> next_step(setup, SetupEventView::Failed(error)) is Ready,
        setup.step is Ready ==> next_step(setup, event) is Ready,
        setup.step is GivenUp ==> next_step(setup, event) is GivenUp,
{
}

/// A warning begins as one and ends with what was told.
spec fn tells(warning: Option<Seq<char>>, path: Seq<char>, error: Seq<char>) -> bool {
    &&& warning is Some
    &&& "WARNING: "@.is_prefix_of(warning->0)
    &&& error.is_suffix_of(warning->0)
    &&& exists|a: Seq<char>, b: Seq<char>| warning->0 == #[trigger] (a + path + b)
}

proof fn lemma_tells(
    warning: Option<Seq<char>>,
    start: Seq<char>,
    path: Seq<char>,
    middle: Seq<char>,
    error: Seq<char>,
)
    requires
        "WARNING: "@.is_prefix_of(start),
        warning == Some(start + path + middle + error),
    ensures
        tells(warning, path, error),
{
    let w = warning->0;
    assert(w == start + path + (middle + error));
    let p = "WARNING: "@;
    assert(w.subrange(0, p.len() as int) == start.subrange(0, p.len() as int));
    assert(w.subrange(w.len() - error.len(), w.len() as int) == error);
}

/// Every failure is told in a warning that ends with the error, and the ones
/// that concern a path name it. What succeeds is told in none, and neither is
/// anything that comes after the end.
pub proof fn failures_are_told(setup: SetupView, error: Seq<char>)
    ensures
        setup_warning(setup, SetupEventView::Done) is None,
        setup_warning(setup, SetupEventView::Found(PathKind::Missing)) is None,
        setup_warning(setup, SetupEventView::Found(PathKind::Socket)) is None,
        !(setup.step is Inspect) ==> setup_warning(
            setup,
            SetupEventView::Found(PathKind::Other),
        ) is None,
        setup.step is Inspect ==> setup_warning(setup, SetupEventView::Found(PathKind::Other))
            == Some("WARNING: Refusing to remove non-socket path '"@ + setup.path + "'"@),
        (setup.step is Ready || setup.step is GivenUp) == (setup_warning(
            setup,
            SetupEventView::Failed(error),
        ) is None),
        setup_warning(setup, SetupEventView::Failed(error)) matches Some(warning) ==> {
            &&& "WARNING: "@.is_prefix_of(warning)
            &&& error.is_suffix_of(warning)
        },
        setup.step is Inspect || setup.step is Remove || setup.step is Bind ==> exists|
            a: Seq<char>,
            b: Seq<char>,
        |
            setup_warning(setup, SetupEventView::Failed(error))->0 == #[trigger] (a + setup.path
                + b),
        setup.step is CreateDirectory && setup.directory is Some ==> exists|
            a: Seq<char>,
            b: Seq<char>,
        |
            setup_warning(setup, SetupEventView::Failed(error))->0 == #[trigger] (a
                + setup.directory->0 + b),
{
    let told = setup_warning(setup, SetupEventView::Failed(error));
    let nothing = Seq::<char>::empty();
    reveal_strlit("WARNING: ");
    reveal_strlit("WARNING: Could not create socket directory '");
    reveal_strlit("WARNING: Could not inspect daemon socket path '");
    reveal_strlit("WARNING: Could not remove stale daemon socket '");
    reveal_strlit("WARNING: Could not bind daemon socket '");
    reveal_strlit("WARNING: Could not set daemon socket nonblocking mode: ");
    reveal_strlit("WARNING: Could not set daemon socket owner uid to ");
    reveal_strlit("WARNING: Could not set daemon socket permissions: ");
    match setup.step {
        SetupStep::CreateDirectory => {
            let start = "WARNING: Could not create socket directory '"@;
            lemma_tells(told, start, sample::text_or_empty(setup.directory), "': "@, error);
        },
        SetupStep::Inspect => {
            let start = "WARNING: Could not inspect daemon socket path '"@;
            lemma_tells(told, start, setup.path, "': "@, error);
        },
        SetupStep::Remove => {
            let start = "WARNING: Could not remove stale daemon socket '"@;
            lemma_tells(told, start, setup.path, "': "@, error);
        },
        SetupStep::Bind => {
            let start = "WARNING: Could not bind daemon socket '"@;
            lemma_tells(told, start, setup.path, "': "@, error);
        },
        SetupStep::SetNonblocking => {
            let start = "WARNING: Could not set daemon socket nonblocking mode: "@;
            assert(start + nothing + nothing + error == start + error);
            lemma_tells(told, start, nothing, nothing, error);
        },
        SetupStep::SetOwner(uid) => {
            let start = "WARNING: Could not set daemon socket owner uid to "@;
            lemma_tells(told, start, text::decimal(uid as nat), ": "@, error);
        },
        SetupStep::SetMode(_) => {
            let start = "WARNING: Could not set daemon socket permissions: "@;
            assert(start + nothing + nothing + error == start + error);
            lemma_tells(told, start, nothing, nothing, error);
        },
        _ => {},
    }
}

/// Everyone is trusted where no user is expected. Where one is, exactly those
/// connections are that come from that user, and one whose user cannot be told
/// is not.
pub proof fn only_the_expected_user_is_trusted(expected: u32, peer: u32)
    ensures
        trusted(None, None),
        trusted(None, Some(peer)),
        trusted(Some(expected), Some(expected)),
        trusted(Some(expected), Some(peer)) ==> peer == expected,
        !trusted(Some(expected), None),
{
}

/// How connections are gone through: one that is trusted is read, and what it
/// carries comes after what there is. One that is not leaves everything as it
/// was, with a warning that names both users. When none waits any longer or
/// accepting fails it is over, and only the failure is told.
pub proof fn connections_are_gone_through(
    receiver: ReceiverView,
    peer: Option<u32>,
    payload: Seq<char>,
    error: Seq<char>,
)
    ensures
        receiving(receiver.expected_uid) == (ReceiverView {
            expected_uid: receiver.expected_uid,
            step: ReceiveStep::Accept,
            samples: seq![],
        }),
        receiver.step is Accept && (receiver.expected_uid is None || receiver.expected_uid == peer)
            ==> {
            &&& heard(receiver, ReceiveEventView::Connected(peer)) == (ReceiverView {
                step: ReceiveStep::Read,
                ..receiver
            })
            &&& receive_warning(receiver, ReceiveEventView::Connected(peer)) is None
        },
        receiver.step is Accept && receiver.expected_uid is Some && receiver.expected_uid != peer
            ==> {
            let warning = receive_warning(receiver, ReceiveEventView::Connected(peer));
            &&& heard(receiver, ReceiveEventView::Connected(peer)) == receiver
            &&& warning is Some
            &&& peer is Some ==> warning->0 == "WARNING: Ignoring focus sample from uid "@
                + text::decimal(peer->0 as nat) + ", expected uid "@ + text::decimal(
                receiver.expected_uid->0 as nat,
            )
        },
        receiver.step is Read ==> {
            &&& heard(receiver, ReceiveEventView::Payload(Some(payload))) == (ReceiverView {
                step: ReceiveStep::Accept,
                samples: receiver.samples + sample::received(payload),
                ..receiver
            })
            &&& heard(receiver, ReceiveEventView::Payload(None)) == (ReceiverView {
                step: ReceiveStep::Accept,
                ..receiver
            })
        },
        receiver.step is Accept ==> {
            &&& heard(receiver, ReceiveEventView::Empty) == (ReceiverView {
                step: ReceiveStep::Stop,
                ..receiver
            })
            &&& heard(receiver, ReceiveEventView::Failed(error)) == (ReceiverView {
                step: ReceiveStep::Stop,
                ..receiver
            })
            &&& receive_warning(receiver, ReceiveEventView::Empty) is None
            &&& receive_warning(receiver, ReceiveEventView::Failed(error)) == Some(
                "WARNING: Focus socket receive failed: "@ + error,
            )
        },
{
}

/// Nothing is told of an event that does not belong to the step, and it changes
/// nothing. After the end there is none that does.
pub proof fn other_events_are_not_heard(receiver: ReceiverView, event: ReceiveEventView)
    ensures
        receiver.step is Stop ==> heard(receiver, event) == receiver,
        receiver.step is Accept && event is Payload ==> heard(receiver, event) == receiver,
        receiver.step is Read && !(event is Payload) ==> heard(receiver, event) == receiver,
        !(receiver.step is Accept) ==> receive_warning(receiver, event) is None,
        heard(receiver, event).expected_uid == receiver.expected_uid,
{
}

} // verus!
