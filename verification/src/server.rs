//! All sessions of one server on the registry and the hub that they share:
//! what stays true of them whatever happens, and in whatever order.

use vstd::prelude::*;
use vstd::relations::injective_on;
use vstd::set_lib::{lemma_int_range, lemma_len_subset, lemma_map_size, set_int_range};
use crate::hub::{first_free, taken, Waiting};
use crate::registry::grants;
use crate::session::{
    free_id, lemma_phase_advances, next, relayed, ActionView, EventView, InboundView, Phase,
    SessionView, World,
};

verus! {

/// The sessions of a server, each under the number of its connection, with
/// the names in use and the mailboxes.
pub struct Server {
    pub sessions: Map<nat, SessionView>,
    pub names: Set<Seq<char>>,
    pub boxes: Map<nat, Waiting>,
    pub capacity: nat,
}

/// One thing that happens on a server.
pub enum Happening {
    /// A socket is accepted and gets a session.
    Connect { connection: nat },
    /// An event reaches the session of a connection.
    Event { connection: nat, event: EventView },
    /// The reader loop of a connection handles a frame.
    Relay { connection: nat, frame: InboundView },
    /// The writer loop of a connection takes its next frame.
    Receive { connection: nat },
}

/// Whether a session holds a name and a mailbox: it does from the moment it
/// joins to the moment it leaves.
pub open spec fn live(session: SessionView) -> bool {
    session.phase == Phase::Active || session.phase == Phase::Closing
}

/// The session of a connection with what it shares.
pub open spec fn world_of(s: Server, connection: nat) -> World {
    World {
        session: s.sessions[connection],
        names: s.names,
        boxes: s.boxes,
        capacity: s.capacity,
    }
}

/// A server to which nobody has connected yet.
pub open spec fn idle_server(capacity: nat) -> Server {
    Server { sessions: Map::empty(), names: Set::empty(), boxes: Map::empty(), capacity }
}

/// The server after one thing has happened. What is said of a connection
/// that has no session changes nothing, and a connection's number is used
/// once.
pub open spec fn after(s: Server, happening: Happening) -> Server {
    match happening {
        Happening::Connect { connection } => if s.sessions.dom().contains(connection) {
            s
        } else {
            Server {
                sessions: s.sessions.insert(
                    connection,
                    SessionView { phase: Phase::Connecting, name: Seq::empty(), subscriber: 0 },
                ),
                ..s
            }
        },
        Happening::Event { connection, event } => if s.sessions.dom().contains(connection) {
            let w = next(world_of(s, connection), event).0;
            Server {
                sessions: s.sessions.insert(connection, w.session),
                names: w.names,
                boxes: w.boxes,
                capacity: w.capacity,
            }
        } else {
            s
        },
        Happening::Relay { connection, frame } => if s.sessions.dom().contains(connection)
            && live(s.sessions[connection]) {
            Server {
                boxes: relayed(s.boxes, s.sessions[connection].name, frame, s.capacity),
                ..s
            }
        } else {
            s
        },
        Happening::Receive { connection } => if s.sessions.dom().contains(connection) && live(
            s.sessions[connection],
        ) && s.boxes.dom().contains(s.sessions[connection].subscriber)
            && s.boxes[s.sessions[connection].subscriber].len() > 0 {
            Server { boxes: taken(s.boxes, s.sessions[connection].subscriber), ..s }
        } else {
            s
        },
    }
}

/// The server after a sequence of things has happened.
pub open spec fn after_all(s: Server, happenings: Seq<Happening>) -> Server
    decreases happenings.len(),
{
    if happenings.len() == 0 {
        s
    } else {
        after(after_all(s, happenings.drop_last()), happenings.last())
    }
}

/// Whether the session of `connection` is live under `name`.
pub open spec fn bears(s: Server, connection: nat, name: Seq<char>) -> bool {
    &&& s.sessions.dom().contains(connection)
    &&& live(s.sessions[connection])
    &&& s.sessions[connection].name == name
}

/// Whether the session of `connection` is live with mailbox `id`.
pub open spec fn owns(s: Server, connection: nat, id: nat) -> bool {
    &&& s.sessions.dom().contains(connection)
    &&& live(s.sessions[connection])
    &&& s.sessions[connection].subscriber == id
}

/// What stays true of a server: two live sessions never bear the same name
/// nor own the same mailbox, no live session bears the empty name, the
/// names in use are exactly the names of the live sessions, and the
/// mailboxes are exactly theirs.
pub open spec fn coherent(s: Server) -> bool {
    &&& s.boxes.dom().finite()
    &&& forall|a: nat, b: nat, name: Seq<char>|
        #![trigger bears(s, a, name), bears(s, b, name)]
        bears(s, a, name) && bears(s, b, name) ==> a == b
    &&& forall|a: nat, b: nat, id: nat|
        #![trigger owns(s, a, id), owns(s, b, id)]
        owns(s, a, id) && owns(s, b, id) ==> a == b
    &&& forall|a: nat, name: Seq<char>| #[trigger] bears(s, a, name) ==> name.len() > 0
    &&& forall|name: Seq<char>| #[trigger]
        s.names.contains(name) <==> exists|a: nat| bears(s, a, name)
    &&& forall|id: nat| #[trigger] s.boxes.dom().contains(id) <==> exists|a: nat| owns(s, a, id)
}

proof fn lemma_search(boxes: Map<nat, Waiting>, from: nat, missing: nat)
    requires
        forall|j: nat| j < from ==> boxes.dom().contains(j),
        from <= missing,
        !boxes.dom().contains(missing),
    ensures
        exists|id: nat| first_free(boxes, id),
    decreases missing - from,
{
    if !boxes.dom().contains(from) {
        assert(first_free(boxes, from));
    } else {
        assert forall|j: nat| j < from + 1 implies boxes.dom().contains(j) by {
            if j == from {
            }
        }
        lemma_search(boxes, from + 1, missing);
    }
}

/// Finitely many mailboxes always leave a number free, and the least free
/// number names no mailbox.
pub proof fn lemma_some_id_is_free(boxes: Map<nat, Waiting>)
    requires
        boxes.dom().finite(),
    ensures
        first_free(boxes, free_id(boxes)),
{
    let ids = boxes.dom();
    let n = ids.len();
    if forall|m: nat| m <= n ==> ids.contains(m) {
        let range = set_int_range(0, n as int + 1);
        let f = |i: int| i as nat;
        lemma_int_range(0, n as int + 1);
        assert(injective_on(f, range));
        lemma_map_size(range, range.map(f), f);
        assert(range.map(f).subset_of(ids)) by {
            assert forall|m: nat| range.map(f).contains(m) implies ids.contains(m) by {
                let i = choose|i: int| range.contains(i) && f(i) == m;
                assert(m <= n);
            }
        }
        lemma_len_subset(range.map(f), ids);
    }
    let missing = choose|m: nat| m <= n && !ids.contains(m);
    lemma_search(boxes, 0, missing);
}

proof fn lemma_event_keeps_coherent(s: Server, c: nat, event: EventView)
    requires
        coherent(s),
        s.sessions.dom().contains(c),
    ensures
        coherent(after(s, Happening::Event { connection: c, event })),
{
    let t = after(s, Happening::Event { connection: c, event });
    let w = world_of(s, c);
    let old_session = s.sessions[c];
    let action = next(w, event).1;
    lemma_phase_advances(w, event);
    assert forall|a: nat, name: Seq<char>| a != c implies #[trigger] bears(t, a, name) == bears(
        s,
        a,
        name,
    ) by {}
    assert forall|a: nat, id: nat| a != c implies #[trigger] owns(t, a, id) == owns(s, a, id) by {}
    if old_session.phase == Phase::AwaitingName && action == ActionView::Start {
        let name = event->Frame_0->Text_0;
        let id = free_id(s.boxes);
        lemma_some_id_is_free(s.boxes);
        assert(grants(s.names, name));
        assert(t.boxes.dom() =~= s.boxes.dom().insert(id));
        assert(!bears(s, c, name));
        assert(bears(t, c, name));
        assert(owns(t, c, id));
        assert forall|a: nat| !#[trigger] bears(s, a, name) by {}
        assert forall|a: nat| !#[trigger] owns(s, a, id) by {}
        assert forall|a: nat, b: nat, n: Seq<char>|
            #![trigger bears(t, a, n), bears(t, b, n)]
            bears(t, a, n) && bears(t, b, n) implies a == b by {
            if a != c && b != c {
                assert(bears(s, a, n) && bears(s, b, n));
            } else if a == c && b != c {
                assert(bears(s, b, name));
            } else if b == c && a != c {
                assert(bears(s, a, name));
            }
        }
        assert forall|a: nat, b: nat, i: nat|
            #![trigger owns(t, a, i), owns(t, b, i)]
            owns(t, a, i) && owns(t, b, i) implies a == b by {
            if a != c && b != c {
                assert(owns(s, a, i) && owns(s, b, i));
            } else if a == c && b != c {
                assert(owns(s, b, id));
            } else if b == c && a != c {
                assert(owns(s, a, id));
            }
        }
        assert forall|a: nat, n: Seq<char>| #[trigger] bears(t, a, n) implies n.len() > 0 by {
            if a != c {
                assert(bears(s, a, n));
            }
        }
        assert forall|n: Seq<char>| #[trigger]
            t.names.contains(n) <==> exists|a: nat| bears(t, a, n) by {
            if t.names.contains(n) {
                if n == name {
                    assert(bears(t, c, n));
                } else {
                    let a = choose|a: nat| bears(s, a, n);
                    assert(bears(t, a, n));
                }
            }
            if exists|a: nat| bears(t, a, n) {
                let a = choose|a: nat| bears(t, a, n);
                if a != c {
                    assert(bears(s, a, n));
                }
            }
        }
        assert forall|i: nat| #[trigger]
            t.boxes.dom().contains(i) <==> exists|a: nat| owns(t, a, i) by {
            if t.boxes.dom().contains(i) {
                if i == id {
                    assert(owns(t, c, i));
                } else {
                    let a = choose|a: nat| owns(s, a, i);
                    assert(owns(t, a, i));
                }
            }
            if exists|a: nat| owns(t, a, i) {
                let a = choose|a: nat| owns(t, a, i);
                if a != c {
                    assert(owns(s, a, i));
                }
            }
        }
    } else if old_session.phase == Phase::Closing && event == EventView::Stopped {
        let name = old_session.name;
        let id = old_session.subscriber;
        assert(bears(s, c, name));
        assert(owns(s, c, id));
        assert(t.boxes.dom() =~= s.boxes.dom().remove(id));
        assert forall|n: Seq<char>| !#[trigger] bears(t, c, n) by {}
        assert forall|i: nat| !#[trigger] owns(t, c, i) by {}
        assert forall|a: nat, b: nat, n: Seq<char>|
            #![trigger bears(t, a, n), bears(t, b, n)]
            bears(t, a, n) && bears(t, b, n) implies a == b by {
            assert(bears(s, a, n) && bears(s, b, n));
        }
        assert forall|a: nat, b: nat, i: nat|
            #![trigger owns(t, a, i), owns(t, b, i)]
            owns(t, a, i) && owns(t, b, i) implies a == b by {
            assert(owns(s, a, i) && owns(s, b, i));
        }
        assert forall|a: nat, n: Seq<char>| #[trigger] bears(t, a, n) implies n.len() > 0 by {
            assert(bears(s, a, n));
        }
        assert forall|n: Seq<char>| #[trigger]
            t.names.contains(n) <==> exists|a: nat| bears(t, a, n) by {
            if t.names.contains(n) {
                let a = choose|a: nat| bears(s, a, n);
                assert(bears(t, a, n));
            }
            if exists|a: nat| bears(t, a, n) {
                let a = choose|a: nat| bears(t, a, n);
                assert(bears(s, a, n));
            }
        }
        assert forall|i: nat| #[trigger]
            t.boxes.dom().contains(i) <==> exists|a: nat| owns(t, a, i) by {
            if t.boxes.dom().contains(i) {
                let a = choose|a: nat| owns(s, a, i);
                assert(owns(t, a, i));
            }
            if exists|a: nat| owns(t, a, i) {
                let a = choose|a: nat| owns(t, a, i);
                assert(owns(s, a, i));
            }
        }
    } else {
        assert(t.names == s.names);
        assert(t.boxes == s.boxes);
        assert forall|a: nat, n: Seq<char>| #[trigger] bears(t, a, n) == bears(s, a, n) by {}
        assert forall|a: nat, i: nat| #[trigger] owns(t, a, i) == owns(s, a, i) by {}
        lemma_same_holdings(s, t);
    }
}

/// A server whose sessions bear the same names and own the same mailboxes
/// as those of a coherent server with the same names in use and as many
/// mailboxes is coherent.
proof fn lemma_same_holdings(s: Server, t: Server)
    requires
        coherent(s),
        t.names == s.names,
        t.boxes.dom() == s.boxes.dom(),
        forall|a: nat, name: Seq<char>| #[trigger] bears(t, a, name) == bears(s, a, name),
        forall|a: nat, id: nat| #[trigger] owns(t, a, id) == owns(s, a, id),
    ensures
        coherent(t),
{
    assert forall|a: nat, b: nat, n: Seq<char>|
        #![trigger bears(t, a, n), bears(t, b, n)]
        bears(t, a, n) && bears(t, b, n) implies a == b by {
        assert(bears(s, a, n) && bears(s, b, n));
    }
    assert forall|a: nat, b: nat, i: nat|
        #![trigger owns(t, a, i), owns(t, b, i)]
        owns(t, a, i) && owns(t, b, i) implies a == b by {
        assert(owns(s, a, i) && owns(s, b, i));
    }
    assert forall|a: nat, n: Seq<char>| #[trigger] bears(t, a, n) implies n.len() > 0 by {
        assert(bears(s, a, n));
    }
    assert forall|n: Seq<char>| #[trigger]
        t.names.contains(n) <==> exists|a: nat| bears(t, a, n) by {
        if t.names.contains(n) {
            let a = choose|a: nat| bears(s, a, n);
            assert(bears(t, a, n));
        }
        if exists|a: nat| bears(t, a, n) {
            let a = choose|a: nat| bears(t, a, n);
            assert(bears(s, a, n));
        }
    }
    assert forall|i: nat| #[trigger]
        t.boxes.dom().contains(i) <==> exists|a: nat| owns(t, a, i) by {
        if t.boxes.dom().contains(i) {
            let a = choose|a: nat| owns(s, a, i);
            assert(owns(t, a, i));
        }
        if exists|a: nat| owns(t, a, i) {
            let a = choose|a: nat| owns(t, a, i);
            assert(owns(s, a, i));
        }
    }
}

/// Nothing that happens on a coherent server makes it incoherent.
pub proof fn lemma_stays_coherent(s: Server, happening: Happening)
    requires
        coherent(s),
    ensures
        coherent(after(s, happening)),
{
    let t = after(s, happening);
    match happening {
        Happening::Connect { connection } => {
            lemma_same_holdings(s, t);
        },
        Happening::Event { connection, event } => {
            if s.sessions.dom().contains(connection) {
                lemma_event_keeps_coherent(s, connection, event);
            }
        },
        Happening::Relay { connection, frame } => {
            assert(t.boxes.dom() =~= s.boxes.dom());
            lemma_same_holdings(s, t);
        },
        Happening::Receive { connection } => {
            assert(t.boxes.dom() =~= s.boxes.dom());
            lemma_same_holdings(s, t);
        },
    }
}

/// Whatever happens on a server, to however many sessions and in whatever
/// order: two sessions never bear the same name at once, the names in use
/// are exactly the names of the sessions that have joined and not yet
/// left, and each of those sessions, and nobody else, has a mailbox.
pub proof fn lemma_server_is_coherent(capacity: nat, happenings: Seq<Happening>)
    ensures
        coherent(after_all(idle_server(capacity), happenings)),
    decreases happenings.len(),
{
    if happenings.len() == 0 {
        let s = idle_server(capacity);
        assert(s.boxes.dom() =~= Set::<nat>::empty());
    } else {
        lemma_server_is_coherent(capacity, happenings.drop_last());
        lemma_stays_coherent(
            after_all(idle_server(capacity), happenings.drop_last()),
            happenings.last(),
        );
    }
}

} // verus!
