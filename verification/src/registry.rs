//! A model of the event loop's registration table.
//!
//! The backend runs on a single-threaded event loop; timers and event-stream
//! sources are registered with the loop and later removed by their
//! registration token.  The verified state machine tracks those registrations
//! here, so that cancellation can be proved explicit: a token stored in a
//! device or surface is always registered, and tearing the owner down always
//! removes it.  The unverified driver mirrors this table onto the real event
//! loop, pairing each token with the loop's own registration handle.

use vstd::prelude::*;

verus! {

/// The set of currently registered event-loop tokens, with a counter that
/// makes every token handed out fresh.
pub struct LoopRegistry {
    pub next_token: u64,
    pub registered: Vec<u64>,
}

impl LoopRegistry {
    /// Whether `t` is a currently registered token.
    pub open spec fn is_registered(self, t: u64) -> bool {
        self.registered@.contains(t)
    }

    /// Registered tokens are pairwise distinct and below the freshness
    /// counter.
    pub open spec fn wf(self) -> bool {
        &&& forall|i: int, j: int|
            0 <= i < j < self.registered@.len() ==> #[trigger] self.registered@[i]
                != #[trigger] self.registered@[j]
        &&& forall|i: int|
            0 <= i < self.registered@.len() ==> #[trigger] self.registered@[i] < self.next_token
    }

    /// Whether `n` more tokens can still be handed out.
    pub open spec fn can_register(self, n: int) -> bool {
        self.next_token + n <= u64::MAX
    }

    /// An empty registration table.
    pub fn new() -> (r: Self)
        ensures
            r.wf(),
            r.registered@.len() == 0,
            r.next_token == 0,
            forall|t: u64| !r.is_registered(t),
    {
        let r = (LoopRegistry { next_token: 0, registered: Vec::new() });
        assert(forall|t: u64| !r.is_registered(t)) by {
            assert(forall|t: u64| !r.registered@.contains(t));
        }
        r
    }

    /// Register a new source and return its fresh token.
    pub fn register(&mut self) -> (t: u64)
        requires
            old(self).wf(),
            old(self).can_register(1),
        ensures
            final(self).wf(),
            t == old(self).next_token,
            !old(self).is_registered(t),
            final(self).registered@ == old(self).registered@.push(t),
            final(self).next_token == old(self).next_token + 1,
            final(self).is_registered(t),
            forall|x: u64| old(self).is_registered(x) ==> final(self).is_registered(x),
            forall|x: u64| final(self).is_registered(x) ==> x == t || old(self).is_registered(x),
    {
        let t = self.next_token;
        assert(!self.is_registered(t)) by {
            if self.registered@.contains(t) {
                let i = choose|i: int|
                    0 <= i < self.registered@.len() && self.registered@[i] == t;
            }
        }
        self.next_token = self.next_token + 1;
        self.registered.push(t);
        proof {
            assert(self.registered@[self.registered@.len() - 1] == t);
            assert(self.registered@.contains(t));
            assert(forall|x: u64|
                old(self).is_registered(x) ==> #[trigger] self.registered@.contains(x)) by {
                assert(forall|i: int|
                    0 <= i < old(self).registered@.len() ==> self.registered@[i] == #[trigger] old(
                        self,
                    ).registered@[i]);
            }
        }
        t
    }

    /// Remove the registration with token `t`, if any.
    pub fn deregister(&mut self, t: u64)
        requires
            old(self).wf(),
        ensures
            final(self).wf(),
            final(self).next_token == old(self).next_token,
            !final(self).is_registered(t),
            forall|x: u64| x != t ==> (final(self).is_registered(x) <==> old(self).is_registered(x)),
            old(self).is_registered(t) ==> final(self).registered@.len() == old(
                self,
            ).registered@.len() - 1,
            !old(self).is_registered(t) ==> final(self).registered@ == old(self).registered@,
    {
        let ghost orig = self.registered@;
        let mut i: usize = 0;
        while i < self.registered.len()
            invariant
                self.registered@ == orig,
                0 <= i <= orig.len(),
                forall|j: int| 0 <= j < i ==> #[trigger] orig[j] != t,
                old(self).wf(),
                *self == *old(self),
            decreases orig.len() - i,
        {
            if self.registered[i] == t {
                self.registered.remove(i);
                proof {
                    assert(self.registered@ == orig.remove(i as int));
                    assert(!self.registered@.contains(t)) by {
                        if self.registered@.contains(t) {
                            let k = choose|k: int|
                                0 <= k < self.registered@.len() && self.registered@[k] == t;
                            if k < i {
                                assert(orig[k] == t);
                            } else {
                                assert(orig[k + 1] == t);
                            }
                        }
                    }
                    assert(forall|x: u64|
                        x != t && orig.contains(x) ==> #[trigger] self.registered@.contains(x)) by {
                        assert forall|x: u64| x != t && orig.contains(x) implies #[trigger] self
                            .registered@.contains(x) by {
                            let k = choose|k: int| 0 <= k < orig.len() && orig[k] == x;
                            if k < i {
                                assert(self.registered@[k] == x);
                            } else {
                                assert(k != i);
                                assert(self.registered@[k - 1] == x);
                            }
                        }
                    }
                    assert(forall|x: u64|
                        #[trigger] self.registered@.contains(x) ==> orig.contains(x)) by {
                        assert forall|x: u64| #[trigger]
                            self.registered@.contains(x) implies orig.contains(x) by {
                            let k = choose|k: int|
                                0 <= k < self.registered@.len() && self.registered@[k] == x;
                            if k < i {
                                assert(orig[k] == x);
                            } else {
                                assert(orig[k + 1] == x);
                            }
                        }
                    }
                }
                return ;
            }
            i = i + 1;
        }
        assert(!self.registered@.contains(t)) by {
            if self.registered@.contains(t) {
                let k = choose|k: int| 0 <= k < orig.len() && orig[k] == t;
            }
        }
    }
}

} // verus!
