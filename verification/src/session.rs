//! One connection's life: it waits for a display name, joins the chat,
//! relays what its client says, and leaves. The decisions are made here;
//! whoever owns the socket reads and writes it and reports what happened.

use vstd::prelude::*;
use crate::codec::{encode, frame_of, Envelope, ServerMessage};
use crate::hub::{first_free, published, Hub, Waiting};
use crate::registry::{after_claim, after_release, grants, Registry};

verus! {

/// Where a session stands in its life.
#[derive(Clone, Copy, Debug, PartialEq, Eq, Structural)]
pub enum Phase {
    /// The socket is accepted and not yet usable for chat.
    Connecting,
    /// The session reads frames until one offers a display name.
    AwaitingName,
    /// The name is held; the reader and the writer loop run.
    Active,
    /// One loop has ended; the other is being stopped.
    Closing,
    /// Nothing more happens.
    Closed,
}

/// One of the two loops of an active session.
#[derive(Clone, Copy, Debug, PartialEq, Eq, Structural)]
pub enum Side {
    /// Socket to hub.
    Reader,
    /// Hub to socket.
    Writer,
}

/// What came from the socket.
#[derive(Debug)]
pub enum Inbound {
    /// A text frame.
    Text(String),
    /// A frame that is not text.
    Other,
    /// The read failed or the peer closed.
    Lost,
}

/// What an `Inbound` stands for.
pub enum InboundView {
    Text(Seq<char>),
    Other,
    Lost,
}

impl View for Inbound {
    type V = InboundView;

    open spec fn view(&self) -> InboundView {
        match self {
            Inbound::Text(text) => InboundView::Text(text@),
            Inbound::Other => InboundView::Other,
            Inbound::Lost => InboundView::Lost,
        }
    }
}

/// What happened to a session.
#[derive(Debug)]
pub enum Event {
    /// The socket is ready.
    Accepted,
    /// Something came from the socket while the session had no name yet.
    Frame(Inbound),
    /// One of the two loops ended.
    LoopEnded(Side),
    /// The loop that was told to stop has stopped.
    Stopped,
}

/// What an `Event` stands for.
pub enum EventView {
    Accepted,
    Frame(InboundView),
    LoopEnded(Side),
    Stopped,
}

impl View for Event {
    type V = EventView;

    open spec fn view(&self) -> EventView {
        match self {
            Event::Accepted => EventView::Accepted,
            Event::Frame(inbound) => EventView::Frame(inbound@),
            Event::LoopEnded(side) => EventView::LoopEnded(*side),
            Event::Stopped => EventView::Stopped,
        }
    }
}

/// What the owner of the socket has to do next.
#[derive(Debug)]
pub enum Action {
    /// Nothing but to go on.
    Nothing,
    /// Start the reader and the writer loop.
    Start,
    /// Send this text to the client and end the connection.
    Refuse(String),
    /// End the connection without a word.
    Stop,
    /// Stop this loop, and report when it has stopped.
    Cancel(Side),
}

/// What an `Action` stands for.
pub enum ActionView {
    Nothing,
    Start,
    Refuse(Seq<char>),
    Stop,
    Cancel(Side),
}

impl View for Action {
    type V = ActionView;

    open spec fn view(&self) -> ActionView {
        match self {
            Action::Nothing => ActionView::Nothing,
            Action::Start => ActionView::Start,
            Action::Refuse(text) => ActionView::Refuse(text@),
            Action::Stop => ActionView::Stop,
            Action::Cancel(side) => ActionView::Cancel(*side),
        }
    }
}

/// Whether a loop goes on after a frame.
#[derive(Clone, Copy, Debug, PartialEq, Eq, Structural)]
pub enum LoopStep {
    Continue,
    Exit,
}

/// One connection.
#[derive(Debug)]
pub struct Session {
    phase: Phase,
    name: String,
    subscriber: usize,
}

/// What a `Session` stands for.
pub struct SessionView {
    pub phase: Phase,
    pub name: Seq<char>,
    pub subscriber: nat,
}

impl View for Session {
    type V = SessionView;

    closed spec fn view(&self) -> SessionView {
        SessionView { phase: self.phase, name: self.name@, subscriber: self.subscriber as nat }
    }
}

/// A session together with the two services that it shares with the other
/// sessions.
pub struct World {
    pub session: SessionView,
    pub names: Set<Seq<char>>,
    pub boxes: Map<nat, Waiting>,
    pub capacity: nat,
}

/// The world that a session, a registry and a hub make up.
pub open spec fn world(session: &Session, registry: &Registry, hub: &Hub) -> World {
    World { session: session@, names: registry@, boxes: hub@, capacity: hub.limit() }
}

/// The notice that tells everyone of a new member.
pub open spec fn joined_notice(name: Seq<char>) -> Seq<char> {
    name + " joined."@
}

/// The notice that tells everyone that a member is gone.
pub open spec fn left_notice(name: Seq<char>) -> Seq<char> {
    name + " left."@
}

/// What a client is told whose name was refused.
pub open spec fn taken_notice() -> Seq<char> {
    "Username already taken."@
}

/// The other loop.
pub open spec fn sibling(side: Side) -> Side {
    match side {
        Side::Reader => Side::Writer,
        Side::Writer => Side::Reader,
    }
}

/// The least number that names no subscriber.
pub open spec fn free_id(boxes: Map<nat, Waiting>) -> nat {
    choose|id: nat| first_free(boxes, id)
}

/// The world after a session has joined under `name`: the name is held,
/// the session subscribes, and then everyone, the session included, is
/// told that it joined.
pub open spec fn joined(w: World, name: Seq<char>) -> World {
    let id = free_id(w.boxes);
    World {
        session: SessionView { phase: Phase::Active, name, subscriber: id },
        names: after_claim(w.names, name),
        boxes: published(w.boxes.insert(id, Seq::empty()), joined_notice(name), w.capacity),
        capacity: w.capacity,
    }
}

/// The world after a session has left: everyone else is told that it left,
/// its subscription ends and its name is free again.
pub open spec fn departed(w: World) -> World {
    World {
        session: SessionView { phase: Phase::Closed, ..w.session },
        names: after_release(w.names, w.session.name),
        boxes: published(w.boxes, left_notice(w.session.name), w.capacity).remove(
            w.session.subscriber,
        ),
        capacity: w.capacity,
    }
}

/// The same world with the session in another phase.
pub open spec fn moved(w: World, phase: Phase) -> World {
    World { session: SessionView { phase, ..w.session }, ..w }
}

/// What an event makes of a world, and what the owner of the socket has to
/// do then. An event that does not belong to the session's phase changes
/// nothing.
pub open spec fn next(w: World, event: EventView) -> (World, ActionView) {
    match (w.session.phase, event) {
        (Phase::Connecting, EventView::Accepted) => (
            moved(w, Phase::AwaitingName),
            ActionView::Nothing,
        ),
        (Phase::AwaitingName, EventView::Frame(InboundView::Text(name))) => if grants(
            w.names,
            name,
        ) {
            (joined(w, name), ActionView::Start)
        } else {
            (moved(w, Phase::Closed), ActionView::Refuse(taken_notice()))
        },
        (Phase::AwaitingName, EventView::Frame(InboundView::Other)) => (w, ActionView::Nothing),
        (Phase::AwaitingName, EventView::Frame(InboundView::Lost)) => (
            moved(w, Phase::Closed),
            ActionView::Stop,
        ),
        (Phase::Active, EventView::LoopEnded(side)) => (
            moved(w, Phase::Closing),
            ActionView::Cancel(sibling(side)),
        ),
        (Phase::Closing, EventView::Stopped) => (departed(w), ActionView::Nothing),
        _ => (w, ActionView::Nothing),
    }
}

/// The mailboxes after the reader loop has handled one frame for the
/// session called `name`: a text that is not empty is published as an
/// envelope from `name`, and nothing else is published.
pub open spec fn relayed(
    boxes: Map<nat, Waiting>,
    name: Seq<char>,
    frame: InboundView,
    capacity: nat,
) -> Map<nat, Waiting> {
    match frame {
        InboundView::Text(text) => if text.len() > 0 {
            published(boxes, frame_of(Envelope { sender: name, msg: text }), capacity)
        } else {
            boxes
        },
        _ => boxes,
    }
}

/// Whether the reader loop goes on after a frame: after a text frame it
/// does, after anything else it ends.
pub open spec fn reader_step(frame: InboundView) -> LoopStep {
    if frame is Text {
        LoopStep::Continue
    } else {
        LoopStep::Exit
    }
}

/// Only one number can be the least that names no subscriber.
pub proof fn lemma_free_id(boxes: Map<nat, Waiting>, id: nat)
    requires
        first_free(boxes, id),
    ensures
        free_id(boxes) == id,
{
    let other = free_id(boxes);
    assert(first_free(boxes, other));
    if other < id {
        assert(boxes.dom().contains(other));
    }
    if id < other {
        assert(boxes.dom().contains(id));
    }
}

/// The reader loop's part for one frame of an active session: a text frame
/// that is not empty goes out to everyone as an envelope from `name`, an
/// empty one is passed over, and anything else ends the loop.
pub fn relay(name: &str, hub: &mut Hub, frame: Inbound) -> (step: LoopStep)
    requires
        old(hub).wf(),
    ensures
        final(hub).wf(),
        final(hub).limit() == old(hub).limit(),
        final(hub)@ == relayed(old(hub)@, name@, frame@, old(hub).limit()),
        step == reader_step(frame@),
{
    match frame {
        Inbound::Text(text) => {
            if !text.as_str().is_empty() {
                let message = ServerMessage { sender: name.to_owned(), msg: text };
                let envelope = encode(&message);
                hub.publish(envelope.as_str());
            }
            LoopStep::Continue
        },
        _ => LoopStep::Exit,
    }
}

impl Session {
    /// A session whose socket has just been accepted.
    pub fn new() -> (session: Session)
        ensures
            session@ == (SessionView {
                phase: Phase::Connecting,
                name: Seq::empty(),
                subscriber: 0,
            }),
    {
        Session { phase: Phase::Connecting, name: String::new(), subscriber: 0 }
    }

    /// Where the session stands.
    pub fn phase(&self) -> (phase: Phase)
        ensures
            phase == self@.phase,
    {
        self.phase
    }

    /// The display name, empty until one is held.
    pub fn name(&self) -> (name: &str)
        ensures
            name@ == self@.name,
    {
        self.name.as_str()
    }

    /// The number of the session's subscription at the hub.
    pub fn subscriber(&self) -> (id: usize)
        ensures
            id == self@.subscriber,
    {
        self.subscriber
    }

    /// Takes one event: moves the session on, does at the registry and the
    /// hub what the move asks for, and says what the owner of the socket
    /// has to do.
    pub fn step(&mut self, registry: &mut Registry, hub: &mut Hub, event: Event) -> (action:
        Action)
        requires
            old(registry).wf(),
            old(hub).wf(),
        ensures
            final(registry).wf(),
            final(hub).wf(),
            world(final(self), final(registry), final(hub)) == next(
                world(old(self), old(registry), old(hub)),
                event@,
            ).0,
            action@ == next(world(old(self), old(registry), old(hub)), event@).1,
    {
        match event {
            Event::Accepted => {
                if self.phase == Phase::Connecting {
                    self.phase = Phase::AwaitingName;
                }
                Action::Nothing
            },
            Event::Frame(inbound) => {
                if self.phase != Phase::AwaitingName {
                    return Action::Nothing;
                }
                match inbound {
                    Inbound::Text(name) => {
                        if registry.claim(name.as_str()) {
                            let id = hub.subscribe();
                            let mut notice = name.clone();
                            notice.append(" joined.");
                            hub.publish(notice.as_str());
                            proof {
                                lemma_free_id(old(hub)@, id as nat);
                            }
                            self.phase = Phase::Active;
                            self.name = name;
                            self.subscriber = id;
                            Action::Start
                        } else {
                            self.phase = Phase::Closed;
                            Action::Refuse(String::from_str("Username already taken."))
                        }
                    },
                    Inbound::Other => Action::Nothing,
                    Inbound::Lost => {
                        self.phase = Phase::Closed;
                        Action::Stop
                    },
                }
            },
            Event::LoopEnded(side) => {
                if self.phase != Phase::Active {
                    return Action::Nothing;
                }
                self.phase = Phase::Closing;
                match side {
                    Side::Reader => Action::Cancel(Side::Writer),
                    Side::Writer => Action::Cancel(Side::Reader),
                }
            },
            Event::Stopped => {
                if self.phase != Phase::Closing {
                    return Action::Nothing;
                }
                let mut notice = self.name.clone();
                notice.append(" left.");
                hub.publish(notice.as_str());
                hub.unsubscribe(self.subscriber);
                registry.release(self.name.as_str());
                self.phase = Phase::Closed;
                Action::Nothing
            },
        }
    }
}

/// How far a session has come.
pub open spec fn rank(phase: Phase) -> nat {
    match phase {
        Phase::Connecting => 0,
        Phase::AwaitingName => 1,
        Phase::Active => 2,
        Phase::Closing => 3,
        Phase::Closed => 4,
    }
}

/// The world after a sequence of events.
pub open spec fn run(w: World, events: Seq<EventView>) -> World
    decreases events.len(),
{
    if events.len() == 0 {
        w
    } else {
        next(run(w, events.drop_last()), events.last()).0
    }
}

/// Whether an event makes the session of this world leave: tell the others
/// that it left, end its subscription and give its name back.
pub open spec fn leaves(w: World, event: EventView) -> bool {
    w.session.phase == Phase::Closing && event == EventView::Stopped
}

/// How often the session leaves in a sequence of events.
pub open spec fn departures(w: World, events: Seq<EventView>) -> nat
    decreases events.len(),
{
    if events.len() == 0 {
        0
    } else {
        let before = departures(w, events.drop_last());
        if leaves(run(w, events.drop_last()), events.last()) {
            before + 1
        } else {
            before
        }
    }
}

/// A session never goes back to an earlier phase, and it touches the
/// registry and the hub only when it joins and when it leaves.
pub proof fn lemma_phase_advances(w: World, event: EventView)
    ensures
        rank(next(w, event).0.session.phase) >= rank(w.session.phase),
        next(w, event).0.capacity == w.capacity,
        next(w, event).0.session.phase == w.session.phase ==> next(w, event).0 == w,
        next(w, event).0.names == w.names && next(w, event).0.boxes == w.boxes || leaves(w, event)
            || next(w, event).1 == ActionView::Start,
{
}

/// A closed session stays closed: no event changes it, the registry or
/// the hub, and none asks for anything.
pub proof fn lemma_closed_is_final(w: World, event: EventView)
    requires
        w.session.phase == Phase::Closed,
    ensures
        next(w, event) == (w, ActionView::Nothing),
{
}

/// A client whose name is refused is told so and never becomes active: the
/// session is closed at once, and the registry and the hub are as before.
pub proof fn lemma_refused_never_active(w: World, name: Seq<char>, later: Seq<EventView>)
    requires
        w.session.phase == Phase::AwaitingName,
        !grants(w.names, name),
    ensures
        next(w, EventView::Frame(InboundView::Text(name))) == (
            moved(w, Phase::Closed),
            ActionView::Refuse(taken_notice()),
        ),
        run(moved(w, Phase::Closed), later) == moved(w, Phase::Closed),
    decreases later.len(),
{
    if later.len() > 0 {
        lemma_refused_never_active(w, name, later.drop_last());
    }
}

/// The first loop to end wins, whichever it is: the other loop is told to
/// stop and the session is closing; the end of the other loop changes
/// nothing then; and when the other loop has stopped the session leaves and
/// is closed, its name free and its subscription gone. Two events take an
/// active session to its end.
pub proof fn lemma_first_exit_closes(w: World, side: Side)
    requires
        w.session.phase == Phase::Active,
    ensures
        ({
            let (closing, first) = next(w, EventView::LoopEnded(side));
            let (closed, last) = next(closing, EventView::Stopped);
            &&& first == ActionView::Cancel(sibling(side))
            &&& closing == moved(w, Phase::Closing)
            &&& next(closing, EventView::LoopEnded(sibling(side))) == (closing, ActionView::Nothing)
            &&& closed == departed(closing)
            &&& closed.session.phase == Phase::Closed
            &&& !closed.names.contains(w.session.name)
            &&& !closed.boxes.dom().contains(w.session.subscriber)
        }),
{
}

/// A session leaves at most once, whatever happens to it and in whatever
/// order, and once it has left it is closed.
pub proof fn lemma_leaves_at_most_once(w: World, events: Seq<EventView>)
    ensures
        departures(w, events) <= 1,
        departures(w, events) == 1 ==> run(w, events).session.phase == Phase::Closed,
    decreases events.len(),
{
    if events.len() > 0 {
        lemma_leaves_at_most_once(w, events.drop_last());
    }
}

/// A session that was active and is closed has left exactly once: neither
/// the order in which its loops end nor the end of both can make it leave
/// twice or not at all.
pub proof fn lemma_leaves_exactly_once(w: World, events: Seq<EventView>)
    requires
        w.session.phase == Phase::Active || w.session.phase == Phase::Closing,
    ensures
        run(w, events).session.phase == Phase::Closed ==> departures(w, events) == 1,
        run(w, events).session.phase != Phase::Closed ==> departures(w, events) == 0 && (run(
            w,
            events,
        ).session.phase == Phase::Active || run(w, events).session.phase == Phase::Closing),
    decreases events.len(),
{
    if events.len() > 0 {
        lemma_leaves_exactly_once(w, events.drop_last());
    }
}

} // verus!
