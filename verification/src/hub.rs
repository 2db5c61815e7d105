//! The broadcast hub: every published frame goes to every subscriber's
//! mailbox. A mailbox holds at most a fixed number of frames; when it is
//! full the oldest frame in it makes room, so that publishing never waits
//! and never fails.

use vstd::prelude::*;
use std::collections::VecDeque;

verus! {

/// What waits for one subscriber, oldest first.
pub type Waiting = Seq<Seq<char>>;

/// The last `capacity` entries of a queue, or all of it where it is shorter.
pub open spec fn keep_last(queue: Waiting, capacity: nat) -> Waiting {
    if queue.len() <= capacity {
        queue
    } else {
        queue.subrange(queue.len() - capacity, queue.len() as int)
    }
}

/// A mailbox after one more frame has been published.
pub open spec fn enqueued(waiting: Waiting, frame: Seq<char>, capacity: nat) -> Waiting {
    keep_last(waiting.push(frame), capacity)
}

/// All mailboxes after one more frame has been published.
pub open spec fn published(
    boxes: Map<nat, Waiting>,
    frame: Seq<char>,
    capacity: nat,
) -> Map<nat, Waiting> {
    boxes.map_values(|waiting: Waiting| enqueued(waiting, frame, capacity))
}

/// All mailboxes after subscriber `id` has taken its oldest frame.
pub open spec fn taken(boxes: Map<nat, Waiting>, id: nat) -> Map<nat, Waiting> {
    boxes.insert(id, boxes[id].drop_first())
}

/// Whether `id` is the least number that names no subscriber.
pub open spec fn first_free(boxes: Map<nat, Waiting>, id: nat) -> bool {
    &&& !boxes.dom().contains(id)
    &&& forall|j: nat| j < id ==> boxes.dom().contains(j)
}

/// What a subscriber gets when it asks for its next frame.
#[derive(Debug)]
pub enum Delivery {
    /// The oldest frame that was waiting.
    Frame(String),
    /// Nothing is waiting.
    Idle,
    /// The subscription does not exist, or no longer.
    Closed,
}

struct Mailbox {
    open: bool,
    items: VecDeque<String>,
}

impl Mailbox {
    spec fn texts(&self) -> Waiting {
        self.items@.map_values(|s: String| s@)
    }
}

/// The fan-out point shared by all sessions.
pub struct Hub {
    capacity: usize,
    slots: Vec<Mailbox>,
}

impl View for Hub {
    type V = Map<nat, Waiting>;

    /// The mailbox of each subscriber.
    closed spec fn view(&self) -> Map<nat, Waiting> {
        Map::new(
            |id: nat| id < self.slots.len() && self.slots[id as int].open,
            |id: nat| self.slots[id as int].texts(),
        )
    }
}

impl Hub {
    /// No mailbox holds more than the capacity.
    pub closed spec fn wf(&self) -> bool {
        forall|i: int|
            0 <= i < self.slots.len() ==> (#[trigger] self.slots[i]).items@.len() <= self.capacity
    }

    /// How many frames a mailbox can hold.
    pub closed spec fn limit(&self) -> nat {
        self.capacity as nat
    }

    /// No mailbox holds more than the capacity.
    pub proof fn lemma_wf(&self, id: nat)
        requires
            self.wf(),
            self@.dom().contains(id),
        ensures
            self@[id].len() <= self.limit(),
    {
        assert(self.slots[id as int].items@.len() <= self.capacity);
    }

    /// A hub without subscribers whose mailboxes will hold `capacity`
    /// frames each.
    pub fn new(capacity: usize) -> (hub: Hub)
        ensures
            hub.wf(),
            hub.limit() == capacity,
            hub@ == Map::<nat, Waiting>::empty(),
    {
        let hub = Hub { capacity, slots: Vec::new() };
        proof {
            assert(hub@ =~= Map::<nat, Waiting>::empty());
        }
        hub
    }

    /// How many frames a mailbox can hold.
    pub fn capacity(&self) -> (n: usize)
        ensures
            n == self.limit(),
    {
        self.capacity
    }

    /// Whether `id` names a subscriber.
    pub fn is_subscribed(&self, id: usize) -> (yes: bool)
        ensures
            yes == self@.dom().contains(id as nat),
    {
        id < self.slots.len() && self.slots[id].open
    }

    /// Adds a subscriber with an empty mailbox, so that it sees what is
    /// published from now on and nothing of what was published before. Its
    /// number is the least that names no subscriber.
    pub fn subscribe(&mut self) -> (id: usize)
        requires
            old(self).wf(),
        ensures
            final(self).wf(),
            final(self).limit() == old(self).limit(),
            first_free(old(self)@, id as nat),
            final(self)@ == old(self)@.insert(id as nat, Seq::empty()),
    {
        let mut i: usize = 0;
        while i < self.slots.len()
            invariant
                i <= self.slots.len(),
                *self == *old(self),
                forall|j: int| 0 <= j < i ==> self.slots[j].open,
            ensures
                i < self.slots.len() ==> !self.slots[i as int].open,
            decreases self.slots.len() - i,
        {
            if !self.slots[i].open {
                break;
            }
            i += 1;
        }
        if i < self.slots.len() {
            self.slots[i].open = true;
            self.slots[i].items.clear();
        } else {
            self.slots.push(Mailbox { open: true, items: VecDeque::new() });
        }
        proof {
            assert(self.slots[i as int].texts() =~= Seq::<Seq<char>>::empty());
            assert(self@ =~= old(self)@.insert(i as nat, Seq::empty()));
            assert forall|j: nat| j < i implies old(self)@.dom().contains(j) by {
                assert(old(self).slots[j as int].open);
            }
        }
        i
    }

    /// Removes a subscriber and what waited for it. Where `id` names no
    /// subscriber, nothing changes.
    pub fn unsubscribe(&mut self, id: usize)
        requires
            old(self).wf(),
        ensures
            final(self).wf(),
            final(self).limit() == old(self).limit(),
            final(self)@ == old(self)@.remove(id as nat),
    {
        if id < self.slots.len() {
            self.slots[id].open = false;
            self.slots[id].items.clear();
        }
        proof {
            assert(self@ =~= old(self)@.remove(id as nat));
        }
    }

    /// Puts `frame` into every subscriber's mailbox. A mailbox that is full
    /// loses its oldest frame.
    pub fn publish(&mut self, frame: &str)
        requires
            old(self).wf(),
        ensures
            final(self).wf(),
            final(self).limit() == old(self).limit(),
            final(self)@ == published(old(self)@, frame@, old(self).limit()),
    {
        let n = self.slots.len();
        let mut i: usize = 0;
        while i < n
            invariant
                i <= n,
                n == self.slots.len(),
                n == old(self).slots.len(),
                self.capacity == old(self).capacity,
                self.wf(),
                forall|j: int| 0 <= j < n ==> (#[trigger] self.slots[j]).open == old(self).slots[j].open,
                forall|j: int|
                    i <= j < n ==> (#[trigger] self.slots[j]).items@ == old(self).slots[j].items@,
                forall|j: int|
                    0 <= j < i && old(self).slots[j].open ==> (#[trigger] self.slots[j]).texts()
                        == enqueued(old(self).slots[j].texts(), frame@, self.capacity as nat),
            decreases n - i,
        {
            if self.slots[i].open && self.capacity > 0 {
                let ghost before = self.slots[i as int].texts();
                if self.slots[i].items.len() >= self.capacity {
                    self.slots[i].items.pop_front();
                }
                self.slots[i].items.push_back(frame.to_owned());
                proof {
                    assert(self.slots[i as int].texts() =~= enqueued(
                        before,
                        frame@,
                        self.capacity as nat,
                    ));
                }
            } else if self.slots[i].open {
                proof {
                    assert(self.slots[i as int].texts() =~= enqueued(
                        self.slots[i as int].texts(),
                        frame@,
                        self.capacity as nat,
                    ));
                }
            }
            i += 1;
        }
        proof {
            assert(self@ =~= published(old(self)@, frame@, old(self).limit()));
        }
    }

    /// Takes the oldest frame out of a subscriber's mailbox.
    pub fn receive(&mut self, id: usize) -> (r: Delivery)
        requires
            old(self).wf(),
        ensures
            final(self).wf(),
            final(self).limit() == old(self).limit(),
            match r {
                Delivery::Frame(frame) => {
                    &&& old(self)@.dom().contains(id as nat)
                    &&& old(self)@[id as nat].len() > 0
                    &&& frame@ == old(self)@[id as nat].first()
                    &&& final(self)@ == taken(old(self)@, id as nat)
                },
                Delivery::Idle => {
                    &&& old(self)@.dom().contains(id as nat)
                    &&& old(self)@[id as nat].len() == 0
                    &&& final(self)@ == old(self)@
                },
                Delivery::Closed => {
                    &&& !old(self)@.dom().contains(id as nat)
                    &&& final(self)@ == old(self)@
                },
            },
    {
        if id >= self.slots.len() || !self.slots[id].open {
            return Delivery::Closed;
        }
        match self.slots[id].items.pop_front() {
            None => {
                proof {
                    assert(self@ =~= old(self)@);
                }
                Delivery::Idle
            },
            Some(frame) => {
                proof {
                    assert(self.slots[id as int].texts() =~= old(self)@[id as nat].drop_first());
                    assert(self@ =~= taken(old(self)@, id as nat));
                }
                Delivery::Frame(frame)
            },
        }
    }
}

/// A mailbox after the frames of `frames` have been published one after
/// another.
pub open spec fn enqueued_all(waiting: Waiting, frames: Waiting, capacity: nat) -> Waiting
    decreases frames.len(),
{
    if frames.len() == 0 {
        waiting
    } else {
        enqueued(enqueued_all(waiting, frames.drop_last(), capacity), frames.last(), capacity)
    }
}

/// All mailboxes after the frames of `frames` have been published one after
/// another.
pub open spec fn published_all(
    boxes: Map<nat, Waiting>,
    frames: Waiting,
    capacity: nat,
) -> Map<nat, Waiting>
    decreases frames.len(),
{
    if frames.len() == 0 {
        boxes
    } else {
        published(published_all(boxes, frames.drop_last(), capacity), frames.last(), capacity)
    }
}

/// A mailbox keeps the order of publication: after a run of publishes it
/// holds the end of what waited before followed by the run, as much of it
/// as the capacity allows, with nothing repeated and nothing out of place.
/// A mailbox with room for the whole run has lost nothing.
pub proof fn lemma_mailbox_keeps_order(waiting: Waiting, frames: Waiting, capacity: nat)
    requires
        waiting.len() <= capacity,
    ensures
        enqueued_all(waiting, frames, capacity) == keep_last(waiting + frames, capacity),
        waiting.len() + frames.len() <= capacity ==> enqueued_all(waiting, frames, capacity)
            == waiting + frames,
    decreases frames.len(),
{
    if frames.len() == 0 {
        assert(waiting + frames =~= waiting);
    } else {
        let earlier = frames.drop_last();
        lemma_mailbox_keeps_order(waiting, earlier, capacity);
        assert((waiting + earlier).push(frames.last()) =~= waiting + frames);
        assert(keep_last(keep_last(waiting + earlier, capacity).push(frames.last()), capacity)
            =~= keep_last(waiting + frames, capacity));
    }
}

/// Publishing reaches every subscriber and changes who subscribes in
/// nothing: after a run of publishes each mailbox is what
/// `enqueued_all` says of it.
pub proof fn lemma_published_all(
    boxes: Map<nat, Waiting>,
    frames: Waiting,
    capacity: nat,
)
    ensures
        published_all(boxes, frames, capacity).dom() == boxes.dom(),
        forall|id: nat| #[trigger]
            boxes.dom().contains(id) ==> published_all(boxes, frames, capacity)[id]
                == enqueued_all(boxes[id], frames, capacity),
    decreases frames.len(),
{
    if frames.len() > 0 {
        lemma_published_all(boxes, frames.drop_last(), capacity);
        assert(published_all(boxes, frames, capacity).dom() =~= boxes.dom());
    }
}

/// All subscribers see one order. After a run of publishes, every
/// subscriber whose mailbox had room for the run holds what waited before
/// followed by the whole run in the order of publication; a subscriber that
/// fell behind holds the end of that same sequence.
pub proof fn lemma_subscribers_see_one_order(
    boxes: Map<nat, Waiting>,
    frames: Waiting,
    capacity: nat,
    id: nat,
)
    requires
        boxes.dom().contains(id),
        boxes[id].len() <= capacity,
    ensures
        published_all(boxes, frames, capacity).dom().contains(id),
        published_all(boxes, frames, capacity)[id] == keep_last(boxes[id] + frames, capacity),
        boxes[id].len() + frames.len() <= capacity ==> published_all(boxes, frames, capacity)[id]
            == boxes[id] + frames,
{
    lemma_published_all(boxes, frames, capacity);
    lemma_mailbox_keeps_order(boxes[id], frames, capacity);
}

} // verus!
