//! The distributed lock: a named, cluster-wide mutual-exclusion primitive
//! with bounded-retry acquisition. The lifecycle is a three-state machine
//! whose transitions only `lock` and `unlock` reach, so a release can be
//! attempted safely from any context; releasing is fail-open, because the
//! safety net against an orphaned backend-side lock is the lease, not local
//! state.

use vstd::prelude::*;
use crate::errors::Error;
use crate::keys::concat3;
use crate::store::{kept_locks, KvStore};

verus! {

/// The lock lifecycle: transitions are monotonic, `Init` to `Locked` to
/// `Released`.
#[derive(Clone, Copy, PartialEq, Eq, Structural, Debug)]
pub enum LockState {
    Init,
    Locked,
    Released,
}

/// The name of the backend-side lock for a logical key: lock names live in a
/// `locker` sub-namespace, disjoint from data keys.
pub open spec fn locker_name(sp: Seq<char>, key: Seq<char>) -> Seq<char> {
    sp + seq!['l', 'o', 'c', 'k', 'e', 'r'] + key
}

/// How a single acquisition attempt against the backend ended.
pub enum LockAttemptOutcome {
    /// The backend granted the lock and returned its release token.
    Acquired { token: String },
    /// The attempt window elapsed with the lock still held elsewhere: the
    /// only failure class that is retried.
    TimedOut { detail: String },
    /// Any other failure: not retried.
    Failed { detail: String },
}

/// What the retry loop does after one attempt.
#[derive(Clone, Copy, PartialEq, Eq, Structural, Debug)]
pub enum LockDecision {
    /// The lock is held; stop.
    Acquired,
    /// Try again: attempts remain and the failure was the timeout class.
    Retry,
    /// Every attempt hit the timeout class; fail with a lock timeout.
    GiveUp,
    /// A non-timeout failure; fail immediately.
    Abort,
}

/// A lock instance: its backend-side name, the release token once acquired,
/// and its lifecycle state.
pub struct Locker {
    pub key: String,
    pub lock_id: String,
    pub state: LockState,
}

/// How many acquisition attempts a lock call makes: the effective timeout
/// (the configured default when the caller passes zero) divided by the
/// per-attempt command timeout, and at least one.
pub open spec fn spec_lock_attempts(timeout: int, default_timeout: int, command_timeout: int) -> int {
    let eff = if timeout == 0 {
        default_timeout
    } else {
        timeout
    };
    let n = eff / command_timeout;
    if n < 1 {
        1
    } else {
        n
    }
}

/// Compute the attempt budget; never zero, so acquisition cannot hang on an
/// empty loop nor retry unboundedly.
pub fn lock_attempts(timeout: u64, default_timeout: u64, command_timeout: u64) -> (n: u64)
    requires
        command_timeout >= 1,
    ensures
        n as int == spec_lock_attempts(timeout as int, default_timeout as int, command_timeout as int),
        n >= 1,
{
    let eff = if timeout == 0 {
        default_timeout
    } else {
        timeout
    };
    let n = eff / command_timeout;
    if n < 1 {
        1
    } else {
        n
    }
}

impl Locker {
    /// A lock over `key`, scoped into the store's `locker` namespace, not yet
    /// acquired.
    pub fn new(key: &str, store_prefix: &str) -> (l: Locker)
        ensures
            l.key@ == locker_name(store_prefix@, key@),
            l.state == LockState::Init,
            l.lock_id@ == Seq::<char>::empty(),
    {
        proof {
            reveal_strlit("locker");
        }
        let name = concat3(store_prefix, "locker", key);
        proof {
            assert(name@ =~= locker_name(store_prefix@, key@));
        }
        Locker { key: name, lock_id: String::new(), state: LockState::Init }
    }

    /// Digest one attempt's outcome: success stores the token and locks;
    /// a timeout is retried while attempts remain; anything else aborts.
    pub fn lock_step(&mut self, outcome: LockAttemptOutcome, attempts_left: u64) -> (d: LockDecision)
        ensures
            final(self).key == old(self).key,
            match outcome {
                LockAttemptOutcome::Acquired { token } => {
                    &&& d == LockDecision::Acquired
                    &&& final(self).state == LockState::Locked
                    &&& final(self).lock_id == token
                },
                LockAttemptOutcome::TimedOut { .. } => {
                    &&& *final(self) == *old(self)
                    &&& d == if attempts_left > 1 {
                        LockDecision::Retry
                    } else {
                        LockDecision::GiveUp
                    }
                },
                LockAttemptOutcome::Failed { .. } => {
                    &&& *final(self) == *old(self)
                    &&& d == LockDecision::Abort
                },
            },
    {
        match outcome {
            LockAttemptOutcome::Acquired { token } => {
                self.lock_id = token;
                self.state = LockState::Locked;
                LockDecision::Acquired
            },
            LockAttemptOutcome::TimedOut { .. } => {
                if attempts_left > 1 {
                    LockDecision::Retry
                } else {
                    LockDecision::GiveUp
                }
            },
            LockAttemptOutcome::Failed { .. } => LockDecision::Abort,
        }
    }

    /// Acquire the lock against the backend, with the bounded retry budget
    /// that `timeout` (zero means the configured default) allows. Succeeds
    /// exactly when no holder exists; a held lock exhausts the budget and
    /// fails with a lock timeout rather than hanging.
    pub fn lock(
        &mut self,
        backend: &mut KvStore,
        timeout: u64,
        default_timeout: u64,
        command_timeout: u64,
    ) -> (r: Result<(), Error>)
        requires
            old(self).state == LockState::Init,
            command_timeout >= 1,
            old(backend).wf(),
        ensures
            final(backend).wf(),
            final(backend).kv_seq() == old(backend).kv_seq(),
            final(backend).as_map() == old(backend).as_map(),
            final(backend).events_view() == old(backend).events_view(),
            final(self).key == old(self).key,
            r is Ok <==> !old(backend).lock_held(old(self).key@),
            r is Ok ==> {
                &&& final(self).state == LockState::Locked
                &&& final(backend).locks_view() == old(backend).locks_view().push(
                    (old(self).key@, final(self).lock_id@),
                )
                &&& final(backend).lock_held(old(self).key@)
            },
            r is Err ==> *final(self) == *old(self) && *final(backend) == *old(backend),
            r matches Err(e) ==> e matches Error::LockTimeout { key } && key@ == old(self).key@,
    {
        let mut attempts_left = lock_attempts(timeout, default_timeout, command_timeout);
        loop
            invariant
                attempts_left >= 1,
                *self == *old(self),
                *backend == *old(backend),
                old(self).state == LockState::Init,
                old(backend).wf(),
            decreases attempts_left,
        {
            let outcome = match backend.try_lock(self.key.as_str()) {
                Some(token) => LockAttemptOutcome::Acquired { token },
                None => LockAttemptOutcome::TimedOut { detail: String::new() },
            };
            match self.lock_step(outcome, attempts_left) {
                LockDecision::Acquired => {
                    return Ok(());
                },
                LockDecision::Retry => {
                    attempts_left = attempts_left - 1;
                },
                LockDecision::GiveUp => {
                    return Err(Error::LockTimeout { key: self.key.clone() });
                },
                LockDecision::Abort => {
                    // the model backend only times out or grants
                    proof {
                        assert(false);
                    }
                    return Err(Error::LockTimeout { key: self.key.clone() });
                },
            }
        }
    }

    /// Leave the `Locked` state, handing back the token the backend must be
    /// asked to release; from any other state this is a no-op. The state
    /// becomes `Released` whatever the release call then does: fail-open.
    pub fn begin_unlock(&mut self) -> (t: Option<String>)
        ensures
            final(self).key == old(self).key,
            final(self).lock_id == old(self).lock_id,
            old(self).state == LockState::Locked ==> (t matches Some(tok) && tok@ == old(
                self,
            ).lock_id@ && final(self).state == LockState::Released),
            old(self).state != LockState::Locked ==> t is None && *final(self) == *old(self),
    {
        match self.state {
            LockState::Locked => {
                self.state = LockState::Released;
                Some(self.lock_id.clone())
            },
            _ => None,
        }
    }

    /// Release the lock against the backend: a no-op unless currently
    /// `Locked`; then the stored token is released and the state becomes
    /// `Released`. A backend-side release failure would be logged and
    /// swallowed, never surfaced, so this cannot fail.
    pub fn unlock(&mut self, backend: &mut KvStore) -> (r: Result<(), Error>)
        requires
            old(backend).wf(),
        ensures
            r is Ok,
            final(backend).wf(),
            final(backend).kv_seq() == old(backend).kv_seq(),
            final(backend).as_map() == old(backend).as_map(),
            final(backend).events_view() == old(backend).events_view(),
            final(self).key == old(self).key,
            final(self).lock_id == old(self).lock_id,
            old(self).state == LockState::Locked ==> final(self).state == LockState::Released
                && final(backend).locks_view() == kept_locks(
                old(backend).locks_view(),
                old(self).key@,
                old(self).lock_id@,
            ),
            old(self).state != LockState::Locked ==> *final(self) == *old(self) && *final(backend)
                == *old(backend),
            forall|k: Seq<char>| #[trigger] final(backend).lock_held(k) ==> old(backend).lock_held(k),
            forall|k: Seq<char>|
                k != old(self).key@ && old(backend).lock_held(k) ==> final(backend).lock_held(k),
    {
        match self.begin_unlock() {
            Some(token) => {
                let name = self.key.clone();
                backend.release_lock(name.as_str(), token.as_str());
                Ok(())
            },
            None => Ok(()),
        }
    }
}

} // verus!
