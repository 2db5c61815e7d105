//! The display names in use: a name is held by at most one session at a
//! time, and the empty name by none.

use vstd::prelude::*;

verus! {

/// The set of display names that are currently held.
pub struct Registry {
    names: Vec<String>,
}

/// Whether a claim of `name` is granted while `held` are the names in use.
pub open spec fn grants(held: Set<Seq<char>>, name: Seq<char>) -> bool {
    name.len() > 0 && !held.contains(name)
}

/// The names in use after a claim of `name`.
pub open spec fn after_claim(held: Set<Seq<char>>, name: Seq<char>) -> Set<Seq<char>> {
    if grants(held, name) {
        held.insert(name)
    } else {
        held
    }
}

/// The names in use after a release of `name`.
pub open spec fn after_release(held: Set<Seq<char>>, name: Seq<char>) -> Set<Seq<char>> {
    held.remove(name)
}

impl View for Registry {
    type V = Set<Seq<char>>;

    closed spec fn view(&self) -> Set<Seq<char>> {
        self.texts().to_set()
    }
}

impl Registry {
    spec fn texts(&self) -> Seq<Seq<char>> {
        self.names@.map_values(|s: String| s@)
    }

    /// No name is listed twice, and the empty name is not listed.
    pub closed spec fn wf(&self) -> bool {
        &&& self.texts().no_duplicates()
        &&& forall|i: int| 0 <= i < self.names.len() ==> self.names[i]@.len() > 0
    }

    /// The empty name is never held, and the names held are finitely many.
    pub proof fn lemma_wf(&self)
        requires
            self.wf(),
        ensures
            !self@.contains(Seq::<char>::empty()),
            self@.finite(),
    {
        if self@.contains(Seq::<char>::empty()) {
            let k = choose|k: int|
                0 <= k < self.texts().len() && self.texts()[k] == Seq::<char>::empty();
            assert(self.names[k]@.len() > 0);
        }
    }

    /// A registry in which no name is held.
    pub fn new() -> (r: Registry)
        ensures
            r.wf(),
            r@ == Set::<Seq<char>>::empty(),
    {
        let r = Registry { names: Vec::new() };
        proof {
            assert(r.texts() =~= Seq::<Seq<char>>::empty());
            assert(r@ =~= Set::<Seq<char>>::empty());
        }
        r
    }

    /// Where `name` stands in the list, if it is held.
    fn position(&self, name: &str) -> (r: Option<usize>)
        ensures
            match r {
                Some(i) => i < self.names.len() && self.names[i as int]@ == name@,
                None => !self@.contains(name@),
            },
    {
        let wanted = name.to_owned();
        let mut i: usize = 0;
        while i < self.names.len()
            invariant
                i <= self.names.len(),
                wanted@ == name@,
                forall|k: int| 0 <= k < i ==> self.names[k]@ != name@,
            decreases self.names.len() - i,
        {
            if self.names[i] == wanted {
                return Some(i);
            }
            i += 1;
        }
        proof {
            if self@.contains(name@) {
                let k = choose|k: int| 0 <= k < self.texts().len() && self.texts()[k] == name@;
                assert(self.names[k]@ == name@);
            }
        }
        None
    }

    /// Whether `name` is held.
    pub fn contains(&self, name: &str) -> (held: bool)
        ensures
            held == self@.contains(name@),
    {
        match self.position(name) {
            Some(i) => {
                proof {
                    assert(self.texts()[i as int] == name@);
                }
                true
            },
            None => false,
        }
    }

    /// How many names are held.
    pub fn len(&self) -> (n: usize)
        requires
            self.wf(),
        ensures
            n == self@.len(),
    {
        proof {
            self.texts().unique_seq_to_set();
        }
        self.names.len()
    }

    /// Takes `name` for a session: granted where the name is not empty and
    /// nobody holds it, and then it is held; refused otherwise, and then
    /// nothing changes.
    pub fn claim(&mut self, name: &str) -> (granted: bool)
        requires
            old(self).wf(),
        ensures
            final(self).wf(),
            granted == grants(old(self)@, name@),
            final(self)@ == after_claim(old(self)@, name@),
    {
        if name.is_empty() {
            return false;
        }
        match self.position(name) {
            Some(i) => {
                proof {
                    assert(self.texts()[i as int] == name@);
                }
                false
            },
            None => {
                let ghost before = self.texts();
                self.names.push(name.to_owned());
                proof {
                    assert(self.texts() =~= before.push(name@));
                    assert(self.texts().to_set() =~= before.to_set().insert(name@)) by {
                        assert forall|n: Seq<char>| self.texts().to_set().contains(n)
                            <==> before.to_set().insert(name@).contains(n) by {
                            if self.texts().contains(n) {
                                let k = choose|k: int| 0 <= k < self.texts().len() && self.texts()[k] == n;
                                if k < before.len() {
                                    assert(before[k] == n);
                                }
                            }
                            if before.contains(n) {
                                let k = choose|k: int| 0 <= k < before.len() && before[k] == n;
                                assert(self.texts()[k] == n);
                            }
                            if n == name@ {
                                assert(self.texts()[before.len() as int] == n);
                            }
                        }
                    }
                }
                true
            },
        }
    }

    /// Gives `name` back. Where nobody holds it, nothing changes.
    pub fn release(&mut self, name: &str)
        requires
            old(self).wf(),
        ensures
            final(self).wf(),
            final(self)@ == after_release(old(self)@, name@),
    {
        match self.position(name) {
            None => {
                proof {
                    assert(self@ =~= after_release(self@, name@));
                }
            },
            Some(i) => {
                let ghost before = self.texts();
                self.names.remove(i);
                proof {
                    assert(self.texts() =~= before.remove(i as int));
                    assert(before[i as int] == name@);
                    assert(self.texts().to_set() =~= before.to_set().remove(name@)) by {
                        assert forall|n: Seq<char>| self.texts().to_set().contains(n)
                            <==> before.to_set().remove(name@).contains(n) by {
                            if self.texts().contains(n) {
                                let k = choose|k: int| 0 <= k < self.texts().len() && self.texts()[k] == n;
                                if k < i {
                                    assert(before[k] == n);
                                } else {
                                    assert(before[k + 1] == n);
                                }
                            }
                            if before.contains(n) && n != name@ {
                                let k = choose|k: int| 0 <= k < before.len() && before[k] == n;
                                if k < i {
                                    assert(self.texts()[k] == n);
                                } else {
                                    assert(self.texts()[k - 1] == n);
                                }
                            }
                        }
                    }
                }
            },
        }
    }
}

/// One call that a session makes on the registry. A session asks for a name
/// while it holds none, and gives back the name that it holds.
pub enum Call {
    Claim { session: nat, name: Seq<char> },
    Release { session: nat },
}

/// The names in use, and the name that each session holds.
pub struct Holdings {
    pub held: Set<Seq<char>>,
    pub holder: Map<nat, Seq<char>>,
}

/// The holdings after one more call.
pub open spec fn after_call(h: Holdings, call: Call) -> Holdings {
    match call {
        Call::Claim { session, name } => if h.holder.dom().contains(session) {
            h
        } else if grants(h.held, name) {
            Holdings { held: after_claim(h.held, name), holder: h.holder.insert(session, name) }
        } else {
            Holdings { held: after_claim(h.held, name), holder: h.holder }
        },
        Call::Release { session } => if h.holder.dom().contains(session) {
            Holdings {
                held: after_release(h.held, h.holder[session]),
                holder: h.holder.remove(session),
            }
        } else {
            h
        },
    }
}

/// The holdings after a sequence of calls on a registry that was empty.
pub open spec fn after_calls(calls: Seq<Call>) -> Holdings
    decreases calls.len(),
{
    if calls.len() == 0 {
        Holdings { held: Set::empty(), holder: Map::empty() }
    } else {
        after_call(after_calls(calls.drop_last()), calls.last())
    }
}

/// No two sessions hold the same name, no session holds the empty name, and
/// a name is in use exactly when a session holds it.
pub open spec fn exclusive(h: Holdings) -> bool {
    &&& forall|a: nat, b: nat|
        h.holder.dom().contains(a) && h.holder.dom().contains(b) && #[trigger] h.holder[a]
            == #[trigger] h.holder[b] ==> a == b
    &&& forall|a: nat| h.holder.dom().contains(a) ==> (#[trigger] h.holder[a]).len() > 0
    &&& forall|n: Seq<char>| #[trigger]
        h.held.contains(n) <==> exists|a: nat| holds(h, a, n)
}

/// Whether session `a` holds the name `n`.
pub open spec fn holds(h: Holdings, a: nat, n: Seq<char>) -> bool {
    h.holder.dom().contains(a) && h.holder[a] == n
}

/// One call keeps the names exclusive.
pub proof fn lemma_call_keeps_exclusive(h: Holdings, call: Call)
    requires
        exclusive(h),
    ensures
        exclusive(after_call(h, call)),
{
    let g = after_call(h, call);
    match call {
        Call::Claim { session, name } => {
            if !h.holder.dom().contains(session) && grants(h.held, name) {
                assert forall|n: Seq<char>| #[trigger]
                    g.held.contains(n) <==> exists|a: nat| holds(g, a, n) by {
                    if g.held.contains(n) {
                        if n == name {
                            assert(holds(g, session, n));
                        } else {
                            let a = choose|a: nat| holds(h, a, n);
                            assert(holds(g, a, n));
                        }
                    }
                    if exists|a: nat| holds(g, a, n) {
                        let a = choose|a: nat| holds(g, a, n);
                        if a != session {
                            assert(holds(h, a, n));
                        }
                    }
                }
                assert forall|a: nat, b: nat|
                    g.holder.dom().contains(a) && g.holder.dom().contains(b)
                        && #[trigger] g.holder[a] == #[trigger] g.holder[b] implies a == b by {
                    if a == session && b != session {
                        assert(holds(h, b, name));
                    }
                    if b == session && a != session {
                        assert(holds(h, a, name));
                    }
                }
            }
        },
        Call::Release { session } => {
            if h.holder.dom().contains(session) {
                let name = h.holder[session];
                assert forall|n: Seq<char>| #[trigger]
                    g.held.contains(n) <==> exists|a: nat| holds(g, a, n) by {
                    if g.held.contains(n) {
                        let a = choose|a: nat| holds(h, a, n);
                        assert(holds(g, a, n));
                    }
                    if exists|a: nat| holds(g, a, n) {
                        let a = choose|a: nat| holds(g, a, n);
                        assert(holds(h, a, n));
                    }
                }
            }
        },
    }
}

/// Whatever calls the sessions make, and in whatever order they come, no
/// two sessions ever hold the same name at once, and the names in use are
/// exactly the names that sessions hold.
pub proof fn lemma_names_stay_exclusive(calls: Seq<Call>)
    ensures
        exclusive(after_calls(calls)),
    decreases calls.len(),
{
    if calls.len() > 0 {
        lemma_names_stay_exclusive(calls.drop_last());
        lemma_call_keeps_exclusive(after_calls(calls.drop_last()), calls.last());
    }
}

} // verus!
