//! The coordination backend's keyspace, modelled exactly: a set of live
//! entries ordered by key, a table of held locks, and an append-only change
//! log. The backend adapter's operations are specified and verified against
//! this model; a deployment replaces it with the remote coordination service,
//! whose network calls live outside the library.

use vstd::prelude::*;
use vstd::map::*;
use crate::keys::{lex_lt, lex_le, str_compare, starts_with_str, KeyCmp};

verus! {

/// One live entry: a full (namespaced) key and its value bytes.
pub struct KvEntry {
    pub key: String,
    pub value: Vec<u8>,
}

impl KvEntry {
    /// The entry as a pair of mathematical values.
    pub open spec fn kv(self) -> (Seq<char>, Seq<u8>) {
        (self.key@, self.value@)
    }
}

/// A change, as the backend records it: full keys, values only on writes.
pub enum RawEvent {
    Put { key: String, value: Vec<u8> },
    Delete { key: String },
}

/// The mathematical value of a recorded change.
pub enum RawEventView {
    Put { key: Seq<char>, value: Seq<u8> },
    Delete { key: Seq<char> },
}

impl View for RawEvent {
    type V = RawEventView;

    open spec fn view(&self) -> RawEventView {
        match self {
            RawEvent::Put { key, value } => RawEventView::Put { key: key@, value: value@ },
            RawEvent::Delete { key } => RawEventView::Delete { key: key@ },
        }
    }
}

impl RawEventView {
    /// The key a change is about.
    pub open spec fn event_key(self) -> Seq<char> {
        match self {
            RawEventView::Put { key, .. } => key,
            RawEventView::Delete { key } => key,
        }
    }
}

/// A lock the backend currently holds for some caller: the lock's name and
/// the opaque token that releases it.
pub struct HeldLock {
    pub key: String,
    pub token: String,
}

/// Copy a byte vector.
pub(crate) fn clone_bytes(v: &Vec<u8>) -> (r: Vec<u8>)
    ensures
        r@ == v@,
{
    let mut r: Vec<u8> = Vec::new();
    let mut i: usize = 0;
    while i < v.len()
        invariant
            i <= v.len(),
            r@ == v@.take(i as int),
        decreases v.len() - i,
    {
        r.push(v[i]);
        proof {
            assert(v@.take(i + 1) =~= v@.take(i as int).push(v@[i as int]));
        }
        i += 1;
    }
    proof {
        assert(v@.take(v@.len() as int) =~= v@);
    }
    r
}

/// The backend keyspace: entries sorted strictly by key, the lock table, and
/// the change log.
pub struct KvStore {
    pub entries: Vec<KvEntry>,
    pub locks: Vec<HeldLock>,
    pub events: Vec<RawEvent>,
    pub next_token: u64,
}

/// A sequence of entries as mathematical pairs.
pub open spec fn kvs_of(entries: Seq<KvEntry>) -> Seq<(Seq<char>, Seq<u8>)> {
    entries.map(|i: int, e: KvEntry| e.kv())
}

/// A sequence of recorded changes as mathematical values.
pub open spec fn events_of(events: Seq<RawEvent>) -> Seq<RawEventView> {
    events.map(|i: int, e: RawEvent| e@)
}

/// A sequence of held locks as (name, token) pairs.
pub open spec fn locks_of(locks: Seq<HeldLock>) -> Seq<(Seq<char>, Seq<char>)> {
    locks.map(|i: int, l: HeldLock| (l.key@, l.token@))
}

impl KvStore {
    /// The entries in key order, as mathematical pairs.
    pub open spec fn kv_seq(self) -> Seq<(Seq<char>, Seq<u8>)> {
        kvs_of(self.entries@)
    }

    /// The change log as mathematical values.
    pub open spec fn events_view(self) -> Seq<RawEventView> {
        events_of(self.events@)
    }

    /// The held locks as (name, token) pairs.
    pub open spec fn locks_view(self) -> Seq<(Seq<char>, Seq<char>)> {
        locks_of(self.locks@)
    }

    /// Entries are sorted strictly ascending by key (so keys are unique),
    /// and no two held locks share a name.
    pub open spec fn wf(self) -> bool {
        &&& forall|i: int, j: int|
            0 <= i < j < self.entries@.len() ==> lex_lt(
                #[trigger] self.entries@[i].key@,
                #[trigger] self.entries@[j].key@,
            )
        &&& forall|i: int, j: int|
            0 <= i < j < self.locks@.len() ==> #[trigger] self.locks@[i].key@
                != #[trigger] self.locks@[j].key@
    }

    /// Is some entry stored under this exact key?
    pub open spec fn contains_key(self, k: Seq<char>) -> bool {
        exists|i: int| 0 <= i < self.entries@.len() && self.entries@[i].key@ == k
    }

    /// The index of the entry with this key.
    pub open spec fn index_of_key(self, k: Seq<char>) -> int {
        choose|i: int| 0 <= i < self.entries@.len() && self.entries@[i].key@ == k
    }

    /// The value stored under this key.
    pub open spec fn value_of(self, k: Seq<char>) -> Seq<u8> {
        self.entries@[self.index_of_key(k)].value@
    }

    /// The keyspace as a map from key to value.
    pub open spec fn as_map(self) -> Map<Seq<char>, Seq<u8>> {
        Map::new(|k: Seq<char>| self.contains_key(k), |k: Seq<char>| self.value_of(k))
    }

    /// Is a lock with this name currently held?
    pub open spec fn lock_held(self, k: Seq<char>) -> bool {
        exists|i: int| 0 <= i < self.locks@.len() && self.locks@[i].key@ == k
    }

    /// In a well-formed store, the entry at index `i` is what lookup of its
    /// key finds.
    pub proof fn lemma_entry_at(self, i: int)
        requires
            self.wf(),
            0 <= i < self.kv_seq().len(),
        ensures
            self.contains_key(self.kv_seq()[i].0),
            self.index_of_key(self.kv_seq()[i].0) == i,
            self.value_of(self.kv_seq()[i].0) == self.kv_seq()[i].1,
            self.as_map()[self.kv_seq()[i].0] == self.kv_seq()[i].1,
    {
        let k = self.entries@[i].key@;
        assert(self.contains_key(k));
        let j = self.index_of_key(k);
        if i < j {
            assert(lex_lt(self.entries@[i].key@, self.entries@[j].key@));
        } else if j < i {
            assert(lex_lt(self.entries@[j].key@, self.entries@[i].key@));
        }
    }

    /// An empty keyspace: nothing stored, nothing locked, nothing logged.
    pub fn new() -> (s: KvStore)
        ensures
            s.wf(),
            s.kv_seq() == Seq::<(Seq<char>, Seq<u8>)>::empty(),
            s.as_map() == Map::<Seq<char>, Seq<u8>>::empty(),
            s.events_view() == Seq::<RawEventView>::empty(),
            s.locks_view() == Seq::<(Seq<char>, Seq<char>)>::empty(),
    {
        let s = KvStore { entries: Vec::new(), locks: Vec::new(), events: Vec::new(), next_token: 0 };
        proof {
            assert(s.kv_seq() =~= Seq::<(Seq<char>, Seq<u8>)>::empty());
            assert(s.events_view() =~= Seq::<RawEventView>::empty());
            assert(s.locks_view() =~= Seq::<(Seq<char>, Seq<char>)>::empty());
            assert(s.as_map() =~= Map::<Seq<char>, Seq<u8>>::empty());
        }
        s
    }

    /// The first index whose key is not below `key`: the insertion point that
    /// keeps the entries sorted, and the position a scan "from" `key` starts
    /// at.
    pub fn find_lower(&self, key: &str) -> (idx: usize)
        requires
            self.wf(),
        ensures
            idx <= self.entries@.len(),
            forall|j: int| 0 <= j < idx ==> lex_lt(#[trigger] self.entries@[j].key@, key@),
            idx < self.entries@.len() ==> lex_le(key@, self.entries@[idx as int].key@),
    {
        let mut idx: usize = 0;
        while idx < self.entries.len()
            invariant
                self.wf(),
                idx <= self.entries@.len(),
                forall|j: int| 0 <= j < idx ==> lex_lt(#[trigger] self.entries@[j].key@, key@),
            decreases self.entries@.len() - idx,
        {
            match str_compare((&self.entries[idx]).key.as_str(), key) {
                KeyCmp::Less => {
                    idx += 1;
                },
                KeyCmp::Equal => {
                    proof {
                        crate::keys::lemma_lex_le_total(key@, self.entries@[idx as int].key@);
                    }
                    return idx;
                },
                KeyCmp::Greater => {
                    return idx;
                },
            }
        }
        idx
    }

    /// Store `value` under `key`, replacing any previous value, and log the
    /// write.
    #[verifier::rlimit(50)]
    pub fn put_raw(&mut self, key: &str, value: Vec<u8>)
        requires
            old(self).wf(),
        ensures
            final(self).wf(),
            final(self).as_map() == old(self).as_map().insert(key@, value@),
            final(self).events_view() == old(self).events_view().push(
                RawEventView::Put { key: key@, value: value@ },
            ),
            final(self).locks_view() == old(self).locks_view(),
    {
        let ghost value_snap = value@;
        let idx = self.find_lower(key);
        let logged = clone_bytes(&value);
        let entry = KvEntry { key: key.to_owned(), value };
        let ghost entry_snap = entry;
        let is_replace = idx < self.entries.len() && match str_compare(
            (&self.entries[idx]).key.as_str(),
            key,
        ) {
            KeyCmp::Equal => true,
            _ => false,
        };
        if is_replace {
            self.entries.remove(idx);
            self.entries.insert(idx, entry);
        } else {
            self.entries.insert(idx, entry);
        }
        self.events.push(RawEvent::Put { key: key.to_owned(), value: logged });
        proof {
            let pre = *old(self);
            let post = *self;
            assert(post.events_view() =~= pre.events_view().push(
                RawEventView::Put { key: key@, value: value_snap },
            ));
            assert(post.locks_view() =~= pre.locks_view());
            if is_replace {
                vstd::seq_lib::lemma_update_is_remove_insert(
                    pre.entries@,
                    idx as int,
                    post.entries@[idx as int],
                );
                assert(post.entries@ =~= pre.entries@.update(
                    idx as int,
                    post.entries@[idx as int],
                ));
                assert(post.kv_seq() =~= pre.kv_seq().update(idx as int, (key@, value_snap)));
                assert forall|i: int, j: int|
                    0 <= i < j < post.entries@.len() implies lex_lt(
                    #[trigger] post.entries@[i].key@,
                    #[trigger] post.entries@[j].key@,
                ) by {
                    assert(post.entries@[i].key@ == pre.entries@[i].key@);
                    assert(post.entries@[j].key@ == pre.entries@[j].key@);
                    assert(lex_lt(pre.entries@[i].key@, pre.entries@[j].key@));
                }
            } else {
                pre.entries@.insert_ensures(idx as int, entry_snap);
                assert(post.entries@ == pre.entries@.insert(idx as int, entry_snap));
                assert(post.entries@[idx as int] == entry_snap);
                assert(post.kv_seq() =~= pre.kv_seq().insert(idx as int, (key@, value_snap))) by {
                    pre.kv_seq().insert_ensures(idx as int, (key@, value_snap));
                }
                if idx < pre.entries@.len() {
                    assert(key@ != pre.entries@[idx as int].key@);
                    assert(lex_lt(key@, pre.entries@[idx as int].key@));
                }
                // Everything below the insertion point is below the new key,
                // and the new key is below everything above it.
                assert forall|t: int| idx < t < post.entries@.len() implies lex_lt(
                    key@,
                    #[trigger] post.entries@[t].key@,
                ) by {
                    assert(post.entries@[t].key@ == pre.entries@[t - 1].key@);
                    assert(lex_lt(key@, pre.entries@[idx as int].key@));
                    if idx < t - 1 {
                        assert(lex_lt(pre.entries@[idx as int].key@, pre.entries@[t - 1].key@));
                        crate::keys::lemma_lex_lt_lt_transitive(
                            key@,
                            pre.entries@[idx as int].key@,
                            pre.entries@[t - 1].key@,
                        );
                    }
                }
                assert forall|i: int, j: int|
                    0 <= i < j < post.entries@.len() implies lex_lt(
                    #[trigger] post.entries@[i].key@,
                    #[trigger] post.entries@[j].key@,
                ) by {
                    if j < idx {
                        assert(lex_lt(pre.entries@[i].key@, pre.entries@[j].key@));
                    } else if j == idx {
                        assert(lex_lt(pre.entries@[i].key@, key@));
                    } else if i < idx {
                        assert(lex_lt(pre.entries@[i].key@, key@));
                        assert(lex_lt(key@, post.entries@[j].key@));
                        crate::keys::lemma_lex_lt_lt_transitive(
                            pre.entries@[i].key@,
                            key@,
                            post.entries@[j].key@,
                        );
                    } else if i == idx {
                        assert(lex_lt(key@, post.entries@[j].key@));
                    } else {
                        assert(lex_lt(pre.entries@[i - 1].key@, pre.entries@[j - 1].key@));
                    }
                }
            }
            // The map view changed by exactly one binding.
            lemma_put_map(pre, post, key@, value_snap, idx as int, is_replace);
        }
    }
}

/// Does a delete of `key` remove the entry stored at `k`? Without
/// `with_prefix` only the exact key goes; with it, the whole subtree under
/// `key` goes.
pub open spec fn delete_matches(k: Seq<char>, key: Seq<char>, with_prefix: bool) -> bool {
    if with_prefix {
        key.is_prefix_of(k)
    } else {
        k == key
    }
}

/// The entries that survive a delete, in their original order.
pub open spec fn kept_kvs(
    s: Seq<(Seq<char>, Seq<u8>)>,
    key: Seq<char>,
    with_prefix: bool,
) -> Seq<(Seq<char>, Seq<u8>)>
    decreases s.len(),
{
    if s.len() == 0 {
        s
    } else if delete_matches(s.last().0, key, with_prefix) {
        kept_kvs(s.drop_last(), key, with_prefix)
    } else {
        kept_kvs(s.drop_last(), key, with_prefix).push(s.last())
    }
}

/// The change-log records a delete appends: one per removed key, in key
/// order.
pub open spec fn delete_log(
    s: Seq<(Seq<char>, Seq<u8>)>,
    key: Seq<char>,
    with_prefix: bool,
) -> Seq<RawEventView>
    decreases s.len(),
{
    if s.len() == 0 {
        Seq::empty()
    } else if delete_matches(s.last().0, key, with_prefix) {
        delete_log(s.drop_last(), key, with_prefix).push(RawEventView::Delete { key: s.last().0 })
    } else {
        delete_log(s.drop_last(), key, with_prefix)
    }
}

/// What survives a delete: each survivor is an original entry that the delete
/// does not match, every unmatched original survives, and order is kept.
proof fn lemma_kept_kvs_props(s: Seq<(Seq<char>, Seq<u8>)>, key: Seq<char>, with_prefix: bool)
    ensures
        kept_kvs(s, key, with_prefix).len() <= s.len(),
        forall|j: int|
            0 <= j < kept_kvs(s, key, with_prefix).len() ==> !delete_matches(
                (#[trigger] kept_kvs(s, key, with_prefix)[j]).0,
                key,
                with_prefix,
            ),
        forall|j: int|
            #![trigger kept_kvs(s, key, with_prefix)[j]]
            0 <= j < kept_kvs(s, key, with_prefix).len() ==> exists|t: int|
                0 <= t < s.len() && s[t] == kept_kvs(s, key, with_prefix)[j],
        forall|t: int|
            0 <= t < s.len() && !delete_matches((#[trigger] s[t]).0, key, with_prefix)
                ==> kept_kvs(s, key, with_prefix).contains(s[t]),
        (forall|i: int, j: int| 0 <= i < j < s.len() ==> lex_lt((#[trigger] s[i]).0, (#[trigger] s[j]).0))
            ==> forall|i: int, j: int|
            0 <= i < j < kept_kvs(s, key, with_prefix).len() ==> lex_lt(
                (#[trigger] kept_kvs(s, key, with_prefix)[i]).0,
                (#[trigger] kept_kvs(s, key, with_prefix)[j]).0,
            ),
    decreases s.len(),
{
    let out = kept_kvs(s, key, with_prefix);
    if s.len() > 0 {
        let head = s.drop_last();
        lemma_kept_kvs_props(head, key, with_prefix);
        let sub = kept_kvs(head, key, with_prefix);
        assert forall|t: int|
            0 <= t < s.len() && !delete_matches((#[trigger] s[t]).0, key, with_prefix) implies out
            .contains(s[t]) by {
            if t == s.len() - 1 {
                assert(out[out.len() - 1] == s[t]);
            } else {
                assert(head[t] == s[t]);
                assert(sub.contains(s[t]));
                let j = choose|j: int| 0 <= j < sub.len() && sub[j] == s[t];
                assert(out[j] == s[t]);
            }
        }
        if forall|i: int, j: int|
            0 <= i < j < s.len() ==> lex_lt((#[trigger] s[i]).0, (#[trigger] s[j]).0) {
            assert forall|i: int, j: int|
                0 <= i < j < s.len() - 1 implies lex_lt(
                (#[trigger] head[i]).0,
                (#[trigger] head[j]).0,
            ) by {
                assert(head[i] == s[i] && head[j] == s[j]);
            }
            assert forall|i: int, j: int|
                0 <= i < j < out.len() implies lex_lt(
                (#[trigger] out[i]).0,
                (#[trigger] out[j]).0,
            ) by {
                if j < sub.len() {
                    assert(out[i] == sub[i] && out[j] == sub[j]);
                } else {
                    // j is the appended last element, an original at the end
                    assert(out[j] == s[s.len() - 1]);
                    assert(out[i] == sub[i]);
                    let t = choose|t: int| 0 <= t < head.len() && head[t] == sub[i];
                    assert(s[t] == sub[i]);
                    assert(lex_lt(s[t].0, s[s.len() - 1].0));
                }
            }
        }
    }
}

impl KvStore {
    /// Remove the entry at `key`, or with `with_prefix` every entry under it,
    /// and log one delete per removed key.
    pub fn delete_raw(&mut self, key: &str, with_prefix: bool)
        requires
            old(self).wf(),
        ensures
            final(self).wf(),
            final(self).kv_seq() == kept_kvs(old(self).kv_seq(), key@, with_prefix),
            final(self).as_map() == old(self).as_map().remove_keys(
                Set::new(|q: Seq<char>| delete_matches(q, key@, with_prefix)),
            ),
            final(self).events_view() == old(self).events_view() + delete_log(
                old(self).kv_seq(),
                key@,
                with_prefix,
            ),
            final(self).locks_view() == old(self).locks_view(),
    {
        let ghost pre = *old(self);
        let mut kept: Vec<KvEntry> = Vec::new();
        let mut i: usize = 0;
        while i < self.entries.len()
            invariant
                self.entries == pre.entries,
                self.locks == pre.locks,
                self.next_token == pre.next_token,
                i <= self.entries@.len(),
                kvs_of(kept@) == kept_kvs(
                    pre.kv_seq().take(i as int),
                    key@,
                    with_prefix,
                ),
                self.events_view() == pre.events_view() + delete_log(
                    pre.kv_seq().take(i as int),
                    key@,
                    with_prefix,
                ),
            decreases self.entries@.len() - i,
        {
            let e = &self.entries[i];
            let matched = if with_prefix {
                starts_with_str(e.key.as_str(), key)
            } else {
                match str_compare(e.key.as_str(), key) {
                    KeyCmp::Equal => true,
                    _ => false,
                }
            };
            proof {
                assert(matched == delete_matches(pre.kv_seq()[i as int].0, key@, with_prefix));
                assert(pre.kv_seq().take(i + 1).drop_last() =~= pre.kv_seq().take(i as int));
                assert(pre.kv_seq().take(i + 1).last() == pre.kv_seq()[i as int]);
            }
            if matched {
                let logged = RawEvent::Delete { key: e.key.clone() };
                let ghost logged_snap = logged;
                let ghost evs_before = self.events@;
                self.events.push(logged);
                proof {
                    assert(logged_snap@ == RawEventView::Delete { key: pre.kv_seq()[i as int].0 });
                    assert(delete_log(pre.kv_seq().take(i + 1), key@, with_prefix) == delete_log(
                        pre.kv_seq().take(i as int),
                        key@,
                        with_prefix,
                    ).push(RawEventView::Delete { key: pre.kv_seq()[i as int].0 }));
                    assert(events_of(self.events@) =~= events_of(evs_before).push(logged_snap@));
                    assert(self.events_view() =~= pre.events_view() + delete_log(
                        pre.kv_seq().take(i + 1),
                        key@,
                        with_prefix,
                    ));
                }
            } else {
                let copied = KvEntry { key: e.key.clone(), value: clone_bytes(&e.value) };
                let ghost copied_snap = copied;
                let ghost kept_before = kept@;
                kept.push(copied);
                proof {
                    assert(copied_snap.kv() == pre.kv_seq()[i as int]);
                    assert(kvs_of(kept@) =~= kvs_of(kept_before).push(copied_snap.kv()));
                    assert(kvs_of(kept@) =~= kept_kvs(
                        pre.kv_seq().take(i + 1),
                        key@,
                        with_prefix,
                    ));
                }
            }
            proof {
                if !matched {
                    assert(self.events_view() =~= pre.events_view() + delete_log(
                        pre.kv_seq().take(i + 1),
                        key@,
                        with_prefix,
                    ));
                } else {
                    assert(kvs_of(kept@) =~= kept_kvs(
                        pre.kv_seq().take(i + 1),
                        key@,
                        with_prefix,
                    ));
                }
            }
            i += 1;
        }
        proof {
            assert(pre.kv_seq().take(pre.kv_seq().len() as int) =~= pre.kv_seq());
        }
        self.entries = kept;
        proof {
            let post = *self;
            let out = kept_kvs(pre.kv_seq(), key@, with_prefix);
            assert(post.kv_seq() == out);
            lemma_kept_kvs_props(pre.kv_seq(), key@, with_prefix);
            assert(post.locks_view() =~= pre.locks_view());
            // Well-formed: survivors keep their strict order.
            assert(forall|i: int, j: int|
                0 <= i < j < pre.kv_seq().len() ==> lex_lt(
                    (#[trigger] pre.kv_seq()[i]).0,
                    (#[trigger] pre.kv_seq()[j]).0,
                ));
            assert forall|i: int, j: int|
                0 <= i < j < post.entries@.len() implies lex_lt(
                #[trigger] post.entries@[i].key@,
                #[trigger] post.entries@[j].key@,
            ) by {
                assert(post.kv_seq()[i] == out[i] && post.kv_seq()[j] == out[j]);
                assert(lex_lt(out[i].0, out[j].0));
            }
            // The map view lost exactly the matching bindings.
            let expected = pre.as_map().remove_keys(
                Set::new(|q: Seq<char>| delete_matches(q, key@, with_prefix)),
            );
            assert forall|q: Seq<char>| #[trigger] post.contains_key(q) implies expected
                .contains_key(q) && expected[q] == post.as_map()[q] by {
                let j = choose|j: int| 0 <= j < post.entries@.len() && post.entries@[j].key@ == q;
                assert(post.kv_seq()[j].0 == q);
                post.lemma_entry_at(j);
                assert(!delete_matches(q, key@, with_prefix));
                let t = choose|t: int| 0 <= t < pre.kv_seq().len() && pre.kv_seq()[t] == out[j];
                pre.lemma_entry_at(t);
            }
            assert forall|q: Seq<char>| #[trigger] expected.contains_key(q) implies post
                .contains_key(q) by {
                assert(pre.contains_key(q));
                let t = choose|t: int| 0 <= t < pre.entries@.len() && pre.entries@[t].key@ == q;
                assert(pre.kv_seq()[t].0 == q);
                assert(out.contains(pre.kv_seq()[t]));
                let j = choose|j: int| 0 <= j < out.len() && out[j] == pre.kv_seq()[t];
                assert(post.kv_seq()[j].0 == q);
            }
            assert(post.as_map() =~= expected);
        }
    }
}

/// Saturating addition on byte counts.
pub open spec fn sat_add(a: int, b: int) -> int {
    if a + b > u64::MAX {
        u64::MAX as int
    } else {
        a + b
    }
}

/// The total size of a set of entries, counting key and value bytes,
/// saturating at `u64::MAX`.
pub open spec fn size_sum(s: Seq<(Seq<char>, Seq<u8>)>) -> int
    decreases s.len(),
{
    if s.len() == 0 {
        0
    } else {
        sat_add(size_sum(s.drop_last()), (s.last().0.len() + s.last().1.len()) as int)
    }
}

impl KvStore {
    /// The contiguous block of entries whose keys start with `full`: every
    /// index in `[lo, hi)` is in the prefix, and no index outside it is.
    pub fn prefix_range(&self, full: &str) -> (r: (usize, usize))
        requires
            self.wf(),
        ensures
            r.0 <= r.1 <= self.entries@.len(),
            forall|j: int|
                r.0 <= j < r.1 ==> full@.is_prefix_of(#[trigger] self.entries@[j].key@),
            forall|j: int|
                0 <= j < self.entries@.len() && !(r.0 <= j < r.1) ==> !full@.is_prefix_of(
                    #[trigger] self.entries@[j].key@,
                ),
    {
        let n = self.entries.len();
        let mut lo: usize = 0;
        while lo < n && !starts_with_str((&self.entries[lo]).key.as_str(), full)
            invariant
                self.wf(),
                n == self.entries@.len(),
                lo <= n,
                forall|j: int| 0 <= j < lo ==> !full@.is_prefix_of(#[trigger] self.entries@[j].key@),
            decreases n - lo,
        {
            lo += 1;
        }
        if lo == n {
            return (n, n);
        }
        let mut hi: usize = lo + 1;
        while hi < n && starts_with_str((&self.entries[hi]).key.as_str(), full)
            invariant
                self.wf(),
                n == self.entries@.len(),
                lo < hi <= n,
                forall|j: int| 0 <= j < lo ==> !full@.is_prefix_of(#[trigger] self.entries@[j].key@),
                forall|j: int| lo <= j < hi ==> full@.is_prefix_of(#[trigger] self.entries@[j].key@),
            decreases n - hi,
        {
            hi += 1;
        }
        proof {
            if hi < n {
                assert forall|j: int| hi < j < n implies !full@.is_prefix_of(
                    #[trigger] self.entries@[j].key@,
                ) by {
                    if full@.is_prefix_of(self.entries@[j].key@) {
                        assert(lex_lt(self.entries@[lo as int].key@, self.entries@[hi as int].key@));
                        assert(lex_lt(self.entries@[hi as int].key@, self.entries@[j].key@));
                        crate::keys::lemma_lex_prefix_interval(
                            full@,
                            self.entries@[lo as int].key@,
                            self.entries@[hi as int].key@,
                            self.entries@[j].key@,
                        );
                    }
                }
            }
        }
        (lo, hi)
    }

    /// Copy out up to `limit` entries starting at position `pos`: one page of
    /// a scan, as the backend serves it.
    pub fn page_at(&self, pos: usize, limit: usize) -> (page: Vec<KvEntry>)
        requires
            self.wf(),
            pos <= self.entries@.len(),
        ensures
            kvs_of(page@) == self.kv_seq().subrange(
                pos as int,
                if pos + limit <= self.entries@.len() {
                    pos + limit
                } else {
                    self.entries@.len() as int
                },
            ),
    {
        let n = self.entries.len();
        let end = if limit < n - pos {
            pos + limit
        } else {
            n
        };
        let mut page: Vec<KvEntry> = Vec::new();
        let mut i: usize = pos;
        while i < end
            invariant
                n == self.entries@.len(),
                pos <= i <= end <= n,
                kvs_of(page@) == self.kv_seq().subrange(pos as int, i as int),
            decreases end - i,
        {
            let e = &self.entries[i];
            let copied = KvEntry { key: e.key.clone(), value: clone_bytes(&e.value) };
            let ghost copied_snap = copied;
            let ghost page_before = page@;
            page.push(copied);
            proof {
                assert(copied_snap.kv() == self.kv_seq()[i as int]);
                assert(kvs_of(page@) =~= kvs_of(page_before).push(copied_snap.kv()));
                assert(kvs_of(page@) =~= self.kv_seq().subrange(pos as int, i + 1));
            }
            i += 1;
        }
        page
    }

    /// The total size of the stored entries in bytes (keys plus values,
    /// saturating) and how many keys are live.
    pub fn sizes(&self) -> (r: (u64, usize))
        ensures
            r.0 as int == size_sum(self.kv_seq()),
            r.1 == self.kv_seq().len(),
    {
        let mut total: u64 = 0;
        let mut i: usize = 0;
        while i < self.entries.len()
            invariant
                i <= self.entries@.len(),
                total as int == size_sum(self.kv_seq().take(i as int)),
            decreases self.entries@.len() - i,
        {
            let e = &self.entries[i];
            let klen = e.key.as_str().unicode_len();
            let vlen = e.value.len();
            let step: u64 = if (klen as u64) > u64::MAX - (vlen as u64) {
                u64::MAX
            } else {
                (klen as u64) + (vlen as u64)
            };
            total = if total > u64::MAX - step {
                u64::MAX
            } else {
                total + step
            };
            proof {
                assert(self.kv_seq().take(i + 1).drop_last() =~= self.kv_seq().take(i as int));
                assert(self.kv_seq().take(i + 1).last() == self.kv_seq()[i as int]);
            }
            i += 1;
        }
        proof {
            assert(self.kv_seq().take(self.kv_seq().len() as int) =~= self.kv_seq());
        }
        (total, self.entries.len())
    }

    /// Try to take the cluster-wide lock named `key`: succeeds with a fresh
    /// release token exactly when no holder exists, as the backend's native
    /// lock primitive does within one attempt window.
    pub fn try_lock(&mut self, key: &str) -> (r: Option<String>)
        requires
            old(self).wf(),
        ensures
            final(self).wf(),
            final(self).kv_seq() == old(self).kv_seq(),
            final(self).as_map() == old(self).as_map(),
            final(self).events_view() == old(self).events_view(),
            r is Some <==> !old(self).lock_held(key@),
            r is None ==> *final(self) == *old(self),
            r matches Some(token) ==> final(self).locks_view() == old(self).locks_view().push(
                (key@, token@),
            ) && final(self).lock_held(key@),
    {
        let mut i: usize = 0;
        let n = self.locks.len();
        while i < n
            invariant
                self == old(self),
                old(self).wf(),
                n == self.locks@.len(),
                i <= n,
                forall|j: int| 0 <= j < i ==> #[trigger] self.locks@[j].key@ != key@,
            decreases n - i,
        {
            let held = match str_compare((&self.locks[i]).key.as_str(), key) {
                KeyCmp::Equal => true,
                _ => false,
            };
            if held {
                proof {
                    assert(self.locks@[i as int].key@ == key@);
                    assert(old(self).lock_held(key@));
                }
                return None;
            }
            i += 1;
        }
        let counter = self.next_token;
        self.next_token = if counter == u64::MAX {
            0
        } else {
            counter + 1
        };
        let suffix = crate::num::u64_to_dec(counter);
        let mut token = key.to_owned();
        token.append("/");
        token.append(suffix.as_str());
        let token_out = token.clone();
        let ghost locks_before = self.locks@;
        let ghost token_snap = token_out@;
        self.locks.push(HeldLock { key: key.to_owned(), token });
        proof {
            let post = *self;
            assert(post.locks_view() =~= locks_of(locks_before).push((key@, token_snap)));
            assert(post.kv_seq() == old(self).kv_seq());
            assert(post.events_view() == old(self).events_view());
            assert(post.locks@[post.locks@.len() - 1].key@ == key@);
            assert(post.lock_held(key@));
            assert forall|a: int, b: int|
                0 <= a < b < post.locks@.len() implies #[trigger] post.locks@[a].key@
                != #[trigger] post.locks@[b].key@ by {
                if b == post.locks@.len() - 1 {
                    assert(post.locks@[a].key@ != key@);
                }
            }
        }
        Some(token_out)
    }

    /// Release the lock that was acquired under `key` with release token
    /// `token`; releasing a lock that is not held under exactly that pair is
    /// a no-op, as the backend treats a stale release.
    pub fn release_lock(&mut self, key: &str, token: &str)
        requires
            old(self).wf(),
        ensures
            final(self).wf(),
            final(self).kv_seq() == old(self).kv_seq(),
            final(self).as_map() == old(self).as_map(),
            final(self).events_view() == old(self).events_view(),
            final(self).locks_view() == kept_locks(old(self).locks_view(), key@, token@),
            forall|k: Seq<char>|
                #[trigger] final(self).lock_held(k) ==> old(self).lock_held(k),
            forall|k: Seq<char>|
                k != key@ && old(self).lock_held(k) ==> final(self).lock_held(k),
    {
        let ghost pre = *old(self);
        let mut kept: Vec<HeldLock> = Vec::new();
        let mut i: usize = 0;
        while i < self.locks.len()
            invariant
                self.locks == pre.locks,
                self.entries == pre.entries,
                self.events == pre.events,
                self.next_token == pre.next_token,
                i <= self.locks@.len(),
                locks_of(kept@) == kept_locks(
                    locks_of(pre.locks@.take(i as int)),
                    key@,
                    token@,
                ),
            decreases self.locks@.len() - i,
        {
            let l = &self.locks[i];
            let key_eq = match str_compare(l.key.as_str(), key) {
                KeyCmp::Equal => true,
                _ => false,
            };
            let token_eq = match str_compare(l.token.as_str(), token) {
                KeyCmp::Equal => true,
                _ => false,
            };
            let matched = key_eq && token_eq;
            proof {
                assert(locks_of(pre.locks@.take(i + 1)).drop_last() =~= locks_of(
                    pre.locks@.take(i as int),
                ));
                assert(locks_of(pre.locks@.take(i + 1)).last() == (
                    pre.locks@[i as int].key@,
                    pre.locks@[i as int].token@,
                ));
            }
            if !matched {
                let copied = HeldLock { key: l.key.clone(), token: l.token.clone() };
                let ghost copied_snap = copied;
                let ghost kept_before = kept@;
                kept.push(copied);
                proof {
                    assert(locks_of(kept@) =~= locks_of(kept_before).push(
                        (copied_snap.key@, copied_snap.token@),
                    ));
                    assert(locks_of(kept@) =~= kept_locks(
                        locks_of(pre.locks@.take(i + 1)),
                        key@,
                        token@,
                    ));
                }
            } else {
                proof {
                    assert(locks_of(kept@) =~= kept_locks(
                        locks_of(pre.locks@.take(i + 1)),
                        key@,
                        token@,
                    ));
                }
            }
            i += 1;
        }
        proof {
            assert(pre.locks@.take(pre.locks@.len() as int) =~= pre.locks@);
        }
        self.locks = kept;
        proof {
            let post = *self;
            lemma_kept_locks_props(pre.locks_view(), key@, token@);
            let out = kept_locks(pre.locks_view(), key@, token@);
            assert(post.locks_view() == out);
            assert forall|a: int, b: int|
                0 <= a < b < post.locks@.len() implies #[trigger] post.locks@[a].key@
                != #[trigger] post.locks@[b].key@ by {
                assert(out[a] == post.locks_view()[a] && out[b] == post.locks_view()[b]);
                let ta = choose|t: int|
                    0 <= t < pre.locks_view().len() && pre.locks_view()[t] == out[a];
                let tb = choose|t: int|
                    0 <= t < pre.locks_view().len() && pre.locks_view()[t] == out[b];
                assert(pre.locks@[ta].key@ == out[a].0 && pre.locks@[tb].key@ == out[b].0);
                if ta < tb {
                    assert(pre.locks@[ta].key@ != pre.locks@[tb].key@);
                } else if tb < ta {
                    assert(pre.locks@[tb].key@ != pre.locks@[ta].key@);
                } else {
                    // same origin cannot sit at two kept positions
                    lemma_kept_locks_distinct(pre.locks_view(), key@, token@, a, b);
                }
            }
            assert forall|k: Seq<char>| #[trigger] post.lock_held(k) implies pre.lock_held(k) by {
                let j = choose|j: int| 0 <= j < post.locks@.len() && post.locks@[j].key@ == k;
                assert(out[j] == post.locks_view()[j]);
                let t = choose|t: int|
                    0 <= t < pre.locks_view().len() && pre.locks_view()[t] == out[j];
                assert(pre.locks@[t].key@ == k);
            }
            assert forall|k: Seq<char>| k != key@ && pre.lock_held(k) implies post.lock_held(
                k,
            ) by {
                let t = choose|t: int| 0 <= t < pre.locks@.len() && pre.locks@[t].key@ == k;
                assert(pre.locks_view()[t] == (k, pre.locks@[t].token@));
                assert(out.contains(pre.locks_view()[t]));
                let j = choose|j: int| 0 <= j < out.len() && out[j] == pre.locks_view()[t];
                assert(post.locks@[j].key@ == k);
            }
        }
    }
}

/// The locks that survive releasing the `(key, token)` pair, in order.
pub open spec fn kept_locks(
    s: Seq<(Seq<char>, Seq<char>)>,
    key: Seq<char>,
    token: Seq<char>,
) -> Seq<(Seq<char>, Seq<char>)>
    decreases s.len(),
{
    if s.len() == 0 {
        s
    } else if s.last() == (key, token) {
        kept_locks(s.drop_last(), key, token)
    } else {
        kept_locks(s.drop_last(), key, token).push(s.last())
    }
}

/// Each survivor of a release is an original lock other than the released
/// pair, and every such original survives.
proof fn lemma_kept_locks_props(s: Seq<(Seq<char>, Seq<char>)>, key: Seq<char>, token: Seq<char>)
    ensures
        kept_locks(s, key, token).len() <= s.len(),
        forall|j: int|
            #![trigger kept_locks(s, key, token)[j]]
            0 <= j < kept_locks(s, key, token).len() ==> kept_locks(s, key, token)[j] != (
                key,
                token,
            ) && exists|t: int| 0 <= t < s.len() && s[t] == kept_locks(s, key, token)[j],
        forall|t: int|
            0 <= t < s.len() && #[trigger] s[t] != (key, token) ==> kept_locks(
                s,
                key,
                token,
            ).contains(s[t]),
    decreases s.len(),
{
    let out = kept_locks(s, key, token);
    if s.len() > 0 {
        let head = s.drop_last();
        lemma_kept_locks_props(head, key, token);
        let sub = kept_locks(head, key, token);
        assert forall|t: int|
            0 <= t < s.len() && #[trigger] s[t] != (key, token) implies out.contains(s[t]) by {
            if t == s.len() - 1 {
                assert(out[out.len() - 1] == s[t]);
            } else {
                assert(head[t] == s[t]);
                assert(sub.contains(s[t]));
                let j = choose|j: int| 0 <= j < sub.len() && sub[j] == s[t];
                assert(out[j] == s[t]);
            }
        }
    }
}

/// Releasing a pair over locks none of which carry that name leaves them
/// unchanged.
pub proof fn lemma_kept_locks_no_key(s: Seq<(Seq<char>, Seq<char>)>, key: Seq<char>, token: Seq<char>)
    requires
        forall|t: int| 0 <= t < s.len() ==> (#[trigger] s[t]).0 != key,
    ensures
        kept_locks(s, key, token) == s,
    decreases s.len(),
{
    if s.len() > 0 {
        let head = s.drop_last();
        assert forall|t: int| 0 <= t < head.len() implies (#[trigger] head[t]).0 != key by {
            assert(head[t] == s[t]);
        }
        lemma_kept_locks_no_key(head, key, token);
        assert(kept_locks(s, key, token) =~= s);
    }
}

/// Releasing the lock just pushed restores the table exactly, as long as the
/// name was free before.
pub proof fn lemma_release_pushed(s: Seq<(Seq<char>, Seq<char>)>, key: Seq<char>, token: Seq<char>)
    requires
        forall|t: int| 0 <= t < s.len() ==> (#[trigger] s[t]).0 != key,
    ensures
        kept_locks(s.push((key, token)), key, token) == s,
{
    let w = s.push((key, token));
    assert(w.last() == (key, token));
    assert(w.drop_last() =~= s);
    lemma_kept_locks_no_key(s, key, token);
}

/// Two distinct kept positions originate from two distinct original
/// positions.
proof fn lemma_kept_locks_distinct(
    s: Seq<(Seq<char>, Seq<char>)>,
    key: Seq<char>,
    token: Seq<char>,
    a: int,
    b: int,
)
    requires
        0 <= a < b < kept_locks(s, key, token).len(),
    ensures
        exists|ta: int, tb: int|
            0 <= ta < tb < s.len() && s[ta] == kept_locks(s, key, token)[a] && s[tb] == kept_locks(
                s,
                key,
                token,
            )[b],
    decreases s.len(),
{
    let out = kept_locks(s, key, token);
    let head = s.drop_last();
    let sub = kept_locks(head, key, token);
    if s.last() == (key, token) {
        lemma_kept_locks_distinct(head, key, token, a, b);
        let (ta, tb) = choose|ta: int, tb: int|
            0 <= ta < tb < head.len() && head[ta] == sub[a] && head[tb] == sub[b];
        assert(s[ta] == out[a] && s[tb] == out[b]);
    } else {
        if b < out.len() - 1 {
            lemma_kept_locks_distinct(head, key, token, a, b);
            let (ta, tb) = choose|ta: int, tb: int|
                0 <= ta < tb < head.len() && head[ta] == sub[a] && head[tb] == sub[b];
            assert(s[ta] == out[a] && s[tb] == out[b]);
        } else {
            // b is the appended last element; a comes from the head
            lemma_kept_locks_props(head, key, token);
            assert(out[a] == sub[a]);
            let ta = choose|t: int| 0 <= t < head.len() && head[t] == sub[a];
            assert(s[ta] == out[a]);
            assert(s[s.len() - 1] == out[b]);
        }
    }
}

/// After an insert-or-replace at the right position, the map view equals the
/// old map with one binding inserted.
proof fn lemma_put_map(
    pre: KvStore,
    post: KvStore,
    k: Seq<char>,
    v: Seq<u8>,
    idx: int,
    is_replace: bool,
)
    requires
        pre.wf(),
        post.wf(),
        0 <= idx <= pre.kv_seq().len(),
        is_replace ==> idx < pre.kv_seq().len() && pre.kv_seq()[idx].0 == k && post.kv_seq()
            =~= pre.kv_seq().update(idx, (k, v)),
        !is_replace ==> post.kv_seq() =~= pre.kv_seq().insert(idx, (k, v)),
    ensures
        post.as_map() == pre.as_map().insert(k, v),
{
    let expected = pre.as_map().insert(k, v);
    assert forall|q: Seq<char>| #[trigger] expected.contains_key(q) implies post.contains_key(q)
        && post.as_map()[q] == expected[q] by {
        if q == k {
            assert(post.kv_seq()[idx] == (k, v));
            post.lemma_entry_at(idx);
        } else {
            assert(pre.contains_key(q));
            let i = choose|i: int| 0 <= i < pre.entries@.len() && pre.entries@[i].key@ == q;
            assert(pre.kv_seq()[i].0 == q);
            pre.lemma_entry_at(i);
            let ni: int = if is_replace || i < idx {
                i
            } else {
                i + 1
            };
            if is_replace && i == idx {
                assert(pre.kv_seq()[idx].0 == k);
                assert(false);
            }
            assert(post.kv_seq()[ni] == pre.kv_seq()[i]);
            post.lemma_entry_at(ni);
        }
    }
    assert forall|q: Seq<char>| #[trigger] post.contains_key(q) implies expected.contains_key(
        q,
    ) by {
        if q != k {
            let i = choose|i: int| 0 <= i < post.entries@.len() && post.entries@[i].key@ == q;
            assert(post.kv_seq()[i].0 == q);
            if i == idx && !is_replace {
                assert(post.kv_seq()[idx].0 == k);
                assert(false);
            }
            if i == idx && is_replace {
                assert(post.kv_seq()[idx].0 == k);
                assert(false);
            }
            let pi: int = if is_replace || i < idx {
                i
            } else {
                i - 1
            };
            assert(pre.kv_seq()[pi].0 == q);
            assert(pre.contains_key(q));
        }
    }
    assert(post.as_map() =~= expected);
}

} // verus!
