//! The read-modify-write orchestrator: a cluster-wide lock scoped to the key,
//! a read that tolerates a missing entry, caller-supplied update logic, the
//! writes it asked for, and an unconditional release on every exit path —
//! update rejection included. The lock makes concurrent callers serialize, so
//! the cluster-wide outcome of N calls is their sequential composition.

use vstd::prelude::*;
use crate::errors::Error;
use crate::etcd::Etcd;
use crate::keys::concat2;
use crate::lock::{locker_name, Locker};
use crate::num::i64_dec_seq;
use crate::store::{KvStore, RawEventView};

verus! {

/// What the caller's update logic decided, given the current value.
pub enum UpdateDecision {
    /// No change: succeed without writing.
    Keep,
    /// Write back `old_rewrite` (when given) to the stored key the read
    /// found, or to the logical key itself when nothing was live; then write
    /// `new_entry` as a fresh, possibly versioned record (when given).
    Write { old_rewrite: Option<Vec<u8>>, new_entry: Option<(String, Vec<u8>, Option<i64>)> },
    /// Reject the update: nothing is written and the error propagates.
    Reject { detail: String },
}

/// The mathematical value of an update decision.
pub enum UpdateDecisionView {
    Keep,
    Write {
        old_rewrite: Option<Seq<u8>>,
        new_entry: Option<(Seq<char>, Seq<u8>, Option<i64>)>,
    },
    Reject { detail: Seq<char> },
}

impl View for UpdateDecision {
    type V = UpdateDecisionView;

    open spec fn view(&self) -> UpdateDecisionView {
        match self {
            UpdateDecision::Keep => UpdateDecisionView::Keep,
            UpdateDecision::Write { old_rewrite, new_entry } => UpdateDecisionView::Write {
                old_rewrite: match old_rewrite {
                    Some(v) => Some(v@),
                    None => None,
                },
                new_entry: match new_entry {
                    Some(t) => Some((t.0@, t.1@, t.2)),
                    None => None,
                },
            },
            UpdateDecision::Reject { detail } => UpdateDecisionView::Reject { detail: detail@ },
        }
    }
}

/// The lock scope a read-modify-write of `key` (and version) uses: a `meta`
/// namespace disjoint from data keys, with the version discriminator (zero
/// when none) as the trailing segment.
pub open spec fn meta_lock_scope(key: Seq<char>, start_dt: Option<i64>) -> Seq<char> {
    seq!['/', 'm', 'e', 't', 'a'] + key + seq!['/'] + i64_dec_seq(
        match start_dt {
            Some(dt) => dt as int,
            None => 0,
        },
    )
}

/// Build the lock scope for a read-modify-write.
pub fn build_meta_lock_scope(key: &str, start_dt: Option<i64>) -> (r: String)
    ensures
        r@ == meta_lock_scope(key@, start_dt),
{
    let dt: i64 = match start_dt {
        Some(dt) => dt,
        None => 0,
    };
    proof {
        reveal_strlit("/meta");
        reveal_strlit("/");
    }
    let base = concat2("/meta", key);
    let suffix = crate::num::i64_to_dec(dt);
    let r = crate::keys::concat3(base.as_str(), "/", suffix.as_str());
    proof {
        assert(r@ =~= meta_lock_scope(key@, start_dt));
    }
    r
}

/// A rejected update propagates as `UpdateRejected`, carrying the update
/// logic's own detail.
pub open spec fn rejection_matches(r: Result<(), Error>, d: UpdateDecisionView) -> bool {
    match (r, d) {
        (
            Err(Error::UpdateRejected { detail }),
            UpdateDecisionView::Reject { detail: want },
        ) => detail@ == want,
        _ => false,
    }
}

/// Does the exec value handed to the update logic carry exactly what the
/// read found?
pub open spec fn arg_matches_read(v: Option<Vec<u8>>, read: Option<(Seq<char>, Seq<u8>)>) -> bool {
    match (v, read) {
        (Some(b), Some(kv)) => b@ == kv.1,
        (None, None) => true,
        _ => false,
    }
}

/// The map after the writes a decision asked for, starting from `pre`:
/// `read` is the (relativized key, value) that was live, if any, and `key`
/// the logical key the update was about. A rewrite goes back to the stored
/// key the read found, or to the logical key itself when nothing was live.
pub open spec fn rmw_map_post(
    e: Etcd,
    pre: Map<Seq<char>, Seq<u8>>,
    key: Seq<char>,
    read: Option<(Seq<char>, Seq<u8>)>,
    d: UpdateDecisionView,
) -> Map<Seq<char>, Seq<u8>> {
    match d {
        UpdateDecisionView::Keep => pre,
        UpdateDecisionView::Reject { .. } => pre,
        UpdateDecisionView::Write { old_rewrite, new_entry } => {
            let target = match read {
                Some(kv) => kv.0,
                None => key,
            };
            let after_rewrite = match old_rewrite {
                Some(v) => pre.insert(e.put_key(target, None), v),
                None => pre,
            };
            match new_entry {
                Some(t) => after_rewrite.insert(e.put_key(t.0, t.2), t.1),
                None => after_rewrite,
            }
        },
    }
}

/// The change log after the writes a decision asked for: one recorded write
/// per put, in the order the orchestrator issues them — the write-back first,
/// then the fresh record.
pub open spec fn rmw_events_post(
    e: Etcd,
    pre: Seq<RawEventView>,
    key: Seq<char>,
    read: Option<(Seq<char>, Seq<u8>)>,
    d: UpdateDecisionView,
) -> Seq<RawEventView> {
    match d {
        UpdateDecisionView::Keep => pre,
        UpdateDecisionView::Reject { .. } => pre,
        UpdateDecisionView::Write { old_rewrite, new_entry } => {
            let target = match read {
                Some(kv) => kv.0,
                None => key,
            };
            let after_rewrite = match old_rewrite {
                Some(v) => pre.push(RawEventView::Put { key: e.put_key(target, None), value: v }),
                None => pre,
            };
            match new_entry {
                Some(t) => after_rewrite.push(
                    RawEventView::Put { key: e.put_key(t.0, t.2), value: t.1 },
                ),
                None => after_rewrite,
            }
        },
    }
}

impl Etcd {
    /// Read `key` under a cluster-wide lock scoped to it, let `update_fn`
    /// decide, apply the writes it asked for, and release the lock on every
    /// exit path: a lock taken here is never left held, whatever the update
    /// logic decided.
    ///
    /// Succeeds unless the lock is already held elsewhere (every bounded
    /// retry times out) or the update logic rejects; the writes are exactly
    /// what the decision asked for, and nothing is written on rejection. A
    /// write-back lands on the stored key the read found; when no record was
    /// live it creates the logical key, so an update such as "the old count,
    /// or zero, plus one" works from an empty store.
    pub fn get_for_update<F: FnOnce(Option<Vec<u8>>) -> UpdateDecision>(
        &self,
        backend: &mut KvStore,
        key: &str,
        need_watch: bool,
        start_dt: Option<i64>,
        default_timeout: u64,
        command_timeout: u64,
        update_fn: F,
    ) -> (r: Result<(), Error>)
        requires
            old(backend).wf(),
            command_timeout >= 1,
            forall|v: Option<Vec<u8>>| #[trigger] call_requires(update_fn, (v,)),
        ensures
            final(backend).wf(),
            // the lock taken for this update is released on every exit path
            final(backend).locks_view() == old(backend).locks_view(),
            ({
                let lockname = locker_name(
                    self.prefix@,
                    meta_lock_scope(key@, start_dt),
                );
                let read = self.get_result(*old(backend), key@);
                &&& old(backend).lock_held(lockname) ==> {
                    &&& *final(backend) == *old(backend)
                    &&& (r matches Err(er) && (er matches Error::LockTimeout { key: k } && k@
                        == lockname))
                }
                &&& !old(backend).lock_held(lockname) ==> exists|v: Option<Vec<u8>>, d: UpdateDecision|
                    {
                        &&& arg_matches_read(v, read)
                        &&& #[trigger] call_ensures(update_fn, (v,), d)
                        &&& final(backend).as_map() == rmw_map_post(
                            *self,
                            old(backend).as_map(),
                            key@,
                            read,
                            d@,
                        )
                        &&& final(backend).events_view() == rmw_events_post(
                            *self,
                            old(backend).events_view(),
                            key@,
                            read,
                            d@,
                        )
                        &&& (r is Ok <==> !(d@ is Reject))
                        &&& (d@ is Reject ==> rejection_matches(r, d@))
                    }
            }),
    {
        let ghost pre = *old(backend);
        // acquire the lock scoped to this key and version
        let lock_scope = build_meta_lock_scope(key, start_dt);
        let mut locker = Locker::new(lock_scope.as_str(), self.prefix.as_str());
        match locker.lock(backend, 0, default_timeout, command_timeout) {
            Ok(()) => {},
            Err(e) => {
                return Err(e);
            },
        }
        let ghost locked = *backend;
        // read the current value, tolerating a missing key
        let (old_key, old_value): (Option<String>, Option<Vec<u8>>) = match self.get_key_value(
            backend,
            key,
        ) {
            Ok((k, v)) => (Some(k), Some(v)),
            Err(_) => (None, None),
        };
        proof {
            assert(self.get_result(locked, key@) == self.get_result(pre, key@));
        }
        let ghost old_value_snap = old_value;
        let decision = update_fn(old_value);
        let ghost decision_snap = decision;
        // apply what the update logic asked for
        let ret: Result<(), Error> = match decision {
            UpdateDecision::Reject { detail } => Err(Error::UpdateRejected { detail }),
            UpdateDecision::Keep => Ok(()),
            UpdateDecision::Write { old_rewrite, new_entry } => {
                if let Some(value) = old_rewrite {
                    // write back to the stored key the read found, or to the
                    // logical key itself when nothing was live
                    let k = match &old_key {
                        Some(k) => k.clone(),
                        None => key.to_owned(),
                    };
                    let _ = self.put(backend, k.as_str(), value, need_watch, None);
                }
                if let Some((new_key, new_value, new_start_dt)) = new_entry {
                    let _ = self.put(backend, new_key.as_str(), new_value, need_watch, new_start_dt);
                }
                Ok(())
            },
        };
        // release the lock unconditionally, as the final step of every branch
        let _ = locker.unlock(backend);
        proof {
            crate::store::lemma_release_pushed(
                pre.locks_view(),
                locker.key@,
                locker.lock_id@,
            );
            let read = self.get_result(pre, key@);
            assert(arg_matches_read(old_value_snap, read));
            assert(call_ensures(update_fn, (old_value_snap,), decision_snap));
        }
        ret
    }
}

} // verus!
