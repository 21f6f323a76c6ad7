//! The registry of live sessions: at most one session per provider.
//!
//! Each entry holds the session's id and the handle that feeds its event
//! loop. Opening a session for a provider that already has one supersedes
//! the old session: its handle is handed back to be dropped, which ends its
//! loop, and from then on only the new session is routed to.

use vstd::prelude::*;

verus! {

struct Slot<T> {
    provider_id: String,
    session_id: u64,
    handle: T,
}

/// Live sessions by provider.
pub struct SessionRegistry<T> {
    slots: Vec<Slot<T>>,
    sessions: Ghost<Map<Seq<char>, u64>>,
    handles: Ghost<Map<Seq<char>, T>>,
}

/// Whether, with live sessions `sessions`, work of session `session_id`
/// for `provider_id` still reaches anyone.
pub open spec fn delivers(sessions: Map<Seq<char>, u64>, provider_id: Seq<char>, session_id: u64) -> bool {
    sessions.contains_key(provider_id) && sessions[provider_id] == session_id
}

impl<T> SessionRegistry<T> {
    /// The live session of each provider.
    pub closed spec fn view(&self) -> Map<Seq<char>, u64> {
        self.sessions@
    }

    /// The handle of each provider's live session.
    pub closed spec fn handles(&self) -> Map<Seq<char>, T> {
        self.handles@
    }

    pub closed spec fn wf(&self) -> bool {
        &&& self.handles@.dom() == self.sessions@.dom()
        &&& forall|i: int, j: int|
            0 <= i < j < self.slots@.len() ==> #[trigger] self.slots@[i].provider_id@
                != #[trigger] self.slots@[j].provider_id@
        &&& forall|i: int|
            0 <= i < self.slots@.len() ==> {
                let s = #[trigger] self.slots@[i];
                &&& self.sessions@.contains_key(s.provider_id@)
                &&& self.sessions@[s.provider_id@] == s.session_id
                &&& self.handles@[s.provider_id@] == s.handle
            }
        &&& forall|p: Seq<char>|
            #[trigger] self.sessions@.contains_key(p) ==> exists|i: int|
                0 <= i < self.slots@.len() && #[trigger] self.slots@[i].provider_id@ == p
    }

    pub fn new() -> (r: SessionRegistry<T>)
        ensures
            r.wf(),
            r@ == Map::<Seq<char>, u64>::empty(),
            r.handles() == Map::<Seq<char>, T>::empty(),
    {
        SessionRegistry { slots: Vec::new(), sessions: Ghost(Map::empty()), handles: Ghost(Map::empty()) }
    }

    fn find(&self, provider_id: &String) -> (r: Option<usize>)
        requires
            self.wf(),
        ensures
            match r {
                Some(i) => i < self.slots@.len() && self.slots@[i as int].provider_id@
                    == provider_id@,
                None => !self@.contains_key(provider_id@),
            },
    {
        let mut i: usize = 0;
        while i < self.slots.len()
            invariant
                i <= self.slots@.len(),
                forall|j: int| 0 <= j < i ==> #[trigger] self.slots@[j].provider_id@ != provider_id@,
            decreases self.slots.len() - i,
        {
            if self.slots[i].provider_id == *provider_id {
                return Some(i);
            }
            i += 1;
        }
        None
    }

    /// The live session of `provider_id`, if any.
    pub fn session_of(&self, provider_id: &String) -> (r: Option<u64>)
        requires
            self.wf(),
        ensures
            r == (if self@.contains_key(provider_id@) {
                Some(self@[provider_id@])
            } else {
                None::<u64>
            }),
    {
        match self.find(provider_id) {
            Some(i) => Some(self.slots[i].session_id),
            None => None,
        }
    }

    /// The handle of session `session_id` of `provider_id`, if that session
    /// is still the live one; work of a superseded session goes nowhere.
    pub fn route(&self, provider_id: &String, session_id: u64) -> (r: Option<&T>)
        requires
            self.wf(),
        ensures
            r is Some <==> delivers(self@, provider_id@, session_id),
            r matches Some(h) ==> *h == self.handles()[provider_id@],
    {
        match self.find(provider_id) {
            Some(i) => if self.slots[i].session_id == session_id {
                Some(&self.slots[i].handle)
            } else {
                None
            },
            None => None,
        }
    }

    /// Makes `session_id` the live session of `provider_id`. The handle of
    /// the session it supersedes, if any, is returned so that the caller can
    /// drop it.
    pub fn register(&mut self, provider_id: String, session_id: u64, handle: T) -> (r: Option<T>)
        requires
            old(self).wf(),
        ensures
            final(self).wf(),
            registered(*old(self), *final(self), provider_id@, session_id, handle),
            r is Some <==> old(self)@.contains_key(provider_id@),
            r matches Some(h) ==> h == old(self).handles()[provider_id@],
    {
        match self.find(&provider_id) {
            Some(i) => {
                let ghost p = provider_id@;
                let ghost h = handle;
                let slot = Slot { provider_id, session_id, handle };
                let ghost before = self.slots@;
                let prev = self.slots.remove(i);
                self.slots.insert(i, slot);
                assert(self.slots@ =~= before.update(i as int, slot));
                self.sessions = Ghost(self.sessions@.insert(p, session_id));
                self.handles = Ghost(self.handles@.insert(p, h));
                assert forall|q: Seq<char>| #[trigger] self.sessions@.contains_key(q) implies exists|j: int|
                    0 <= j < self.slots@.len() && #[trigger] self.slots@[j].provider_id@ == q by {
                    if q != p {
                        let j = choose|j: int|
                            0 <= j < old(self).slots@.len() && #[trigger] old(self).slots@[j].provider_id@ == q;
                        assert(self.slots@[j].provider_id@ == q);
                    } else {
                        assert(self.slots@[i as int].provider_id@ == q);
                    }
                }
                assert(self.handles@.dom() =~= self.sessions@.dom());
                Some(prev.handle)
            },
            None => {
                let ghost p = provider_id@;
                let ghost h = handle;
                self.slots.push(Slot { provider_id, session_id, handle });
                self.sessions = Ghost(self.sessions@.insert(p, session_id));
                self.handles = Ghost(self.handles@.insert(p, h));
                assert forall|q: Seq<char>| #[trigger] self.sessions@.contains_key(q) implies exists|j: int|
                    0 <= j < self.slots@.len() && #[trigger] self.slots@[j].provider_id@ == q by {
                    if q != p {
                        let j = choose|j: int|
                            0 <= j < old(self).slots@.len() && #[trigger] old(self).slots@[j].provider_id@ == q;
                        assert(self.slots@[j].provider_id@ == q);
                    } else {
                        assert(self.slots@[self.slots@.len() - 1].provider_id@ == q);
                    }
                }
                assert(self.handles@.dom() =~= self.sessions@.dom());
                None
            },
        }
    }
}

/// `after` is `before` with session `session_id`, fed through `handle`,
/// made the live session of `provider_id`.
pub open spec fn registered<T>(
    before: SessionRegistry<T>,
    after: SessionRegistry<T>,
    provider_id: Seq<char>,
    session_id: u64,
    handle: T,
) -> bool {
    &&& after@ == before@.insert(provider_id, session_id)
    &&& after.handles() == before.handles().insert(provider_id, handle)
}

/// Once a new session is registered for a provider, work of the session it
/// superseded is no longer delivered, the new session's is, requests for the
/// provider reach the new session's handle only, and the other providers'
/// sessions and handles are as they were.
pub proof fn lemma_supersession<T>(
    before: SessionRegistry<T>,
    after: SessionRegistry<T>,
    provider_id: Seq<char>,
    superseded: u64,
    fresh: u64,
    handle: T,
)
    requires
        registered(before, after, provider_id, fresh, handle),
        superseded != fresh,
    ensures
        !delivers(after@, provider_id, superseded),
        delivers(after@, provider_id, fresh),
        after.handles()[provider_id] == handle,
        forall|q: Seq<char>, s: u64|
            q != provider_id ==> delivers(after@, q, s) == #[trigger] delivers(before@, q, s),
        forall|q: Seq<char>|
            q != provider_id ==> after.handles().contains_key(q) == before.handles().contains_key(q)
                && after.handles()[q] == #[trigger] before.handles()[q],
{
}

} // verus!
