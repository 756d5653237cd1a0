//! The backend adapter: key namespacing, the paginated scanner, and watch
//! event classification, verified against the modelled keyspace. Every
//! operation takes the backend state explicitly; a deployment drives the same
//! cursor and classification logic against the remote coordination service.

use vstd::prelude::*;
use crate::keys::{
    concat2, concat3, lex_lt, starts_with_str, str_compare, strip_prefix_string,
    trim_end_slashes, trim_trailing_slashes, KeyCmp,
};
use crate::num::i64_dec_seq;
use crate::store::{clone_bytes, kvs_of, KvEntry, KvStore, RawEvent, RawEventView};

verus! {

/// What a change notification carries to a consumer: the prefix-relativized
/// key, the new value on writes, and the version discriminator when one is
/// known.
#[derive(Debug, PartialEq, Eq)]
pub struct EventData {
    pub key: String,
    pub value: Option<Vec<u8>>,
    pub start_dt: Option<i64>,
}

/// A change notification, as surfaced to watch consumers.
#[derive(Debug, PartialEq, Eq)]
pub enum Event {
    Put(EventData),
    Delete(EventData),
}

/// The mathematical value of an `EventData`.
pub struct EventDataView {
    pub key: Seq<char>,
    pub value: Option<Seq<u8>>,
    pub start_dt: Option<i64>,
}

/// The mathematical value of an `Event`.
pub enum EventView {
    Put(EventDataView),
    Delete(EventDataView),
}

impl View for EventData {
    type V = EventDataView;

    open spec fn view(&self) -> EventDataView {
        EventDataView {
            key: self.key@,
            value: match self.value {
                Some(ref v) => Some(v@),
                None => None,
            },
            start_dt: self.start_dt,
        }
    }
}

impl View for Event {
    type V = EventView;

    open spec fn view(&self) -> EventView {
        match self {
            Event::Put(d) => EventView::Put(d@),
            Event::Delete(d) => EventView::Delete(d@),
        }
    }
}

/// A sequence of events as mathematical values.
pub open spec fn events_views(evs: Seq<Event>) -> Seq<EventView> {
    evs.map(|i: int, e: Event| e@)
}

/// How a backend change is surfaced: the store prefix is stripped, a write
/// becomes `Put` with its value, a removal becomes `Delete`.
pub open spec fn classify_spec(ev: RawEventView, sp: Seq<char>) -> EventView {
    match ev {
        RawEventView::Put { key, value } => EventView::Put(
            EventDataView { key: key.skip(sp.len() as int), value: Some(value), start_dt: None },
        ),
        RawEventView::Delete { key } => EventView::Delete(
            EventDataView { key: key.skip(sp.len() as int), value: None, start_dt: None },
        ),
    }
}

/// Relativize and classify one backend change.
pub fn classify_event(store_prefix: &str, raw: &RawEvent) -> (ev: Event)
    requires
        store_prefix@.is_prefix_of(raw@.event_key()),
    ensures
        ev@ == classify_spec(raw@, store_prefix@),
{
    match raw {
        RawEvent::Put { key, value } => {
            let item_key = strip_prefix_string(key.as_str(), store_prefix);
            Event::Put(EventData { key: item_key, value: Some(clone_bytes(value)), start_dt: None })
        },
        RawEvent::Delete { key } => {
            let item_key = strip_prefix_string(key.as_str(), store_prefix);
            Event::Delete(EventData { key: item_key, value: None, start_dt: None })
        },
    }
}

/// The events a watch on `full` delivers out of a run of backend changes:
/// the changes under the watched prefix, classified, in order.
pub open spec fn watch_log(events: Seq<RawEventView>, sp: Seq<char>, full: Seq<char>) -> Seq<
    EventView,
>
    decreases events.len(),
{
    if events.len() == 0 {
        Seq::empty()
    } else if full.is_prefix_of(events.last().event_key()) {
        watch_log(events.drop_last(), sp, full).push(classify_spec(events.last(), sp))
    } else {
        watch_log(events.drop_last(), sp, full)
    }
}

/// How much of a page a scan consumes: everything up to the first entry that
/// has left the queried prefix (the scan's defensive bound).
pub open spec fn page_cut(page: Seq<(Seq<char>, Seq<u8>)>, full: Seq<char>) -> int
    decreases page.len(),
{
    if page.len() == 0 {
        0
    } else if !full.is_prefix_of(page.first().0) {
        0
    } else {
        1 + page_cut(page.drop_first(), full)
    }
}

/// What a scan emits from one page: the entries before the cut, except any
/// re-served copy of the last key already seen.
pub open spec fn emitted_entries(
    page: Seq<(Seq<char>, Seq<u8>)>,
    full: Seq<char>,
    last: Option<Seq<char>>,
) -> Seq<(Seq<char>, Seq<u8>)>
    decreases page.len(),
{
    if page.len() == 0 {
        Seq::empty()
    } else if !full.is_prefix_of(page.first().0) {
        Seq::empty()
    } else if last == Some(page.first().0) {
        emitted_entries(page.drop_first(), full, last)
    } else {
        seq![page.first()] + emitted_entries(page.drop_first(), full, last)
    }
}

/// The entries under a prefix, in key order: what a complete enumeration
/// must return, regardless of page size.
pub open spec fn prefixed_kvs(s: Seq<(Seq<char>, Seq<u8>)>, full: Seq<char>) -> Seq<
    (Seq<char>, Seq<u8>),
>
    decreases s.len(),
{
    if s.len() == 0 {
        s
    } else if full.is_prefix_of(s.last().0) {
        prefixed_kvs(s.drop_last(), full).push(s.last())
    } else {
        prefixed_kvs(s.drop_last(), full)
    }
}

/// On a sorted store whose prefixed entries sit exactly in `[lo, hi)`, the
/// enumeration spec is that block.
pub proof fn lemma_prefixed_kvs_block(
    s: Seq<(Seq<char>, Seq<u8>)>,
    full: Seq<char>,
    lo: int,
    hi: int,
)
    requires
        0 <= lo <= hi <= s.len(),
        forall|j: int| lo <= j < hi ==> full.is_prefix_of((#[trigger] s[j]).0),
        forall|j: int| 0 <= j < s.len() && !(lo <= j < hi) ==> !full.is_prefix_of((#[trigger] s[j]).0),
    ensures
        prefixed_kvs(s, full) == s.subrange(lo, hi),
    decreases s.len(),
{
    if s.len() == 0 {
        assert(prefixed_kvs(s, full) =~= s.subrange(lo, hi));
    } else {
        let head = s.drop_last();
        let n = s.len() as int;
        if full.is_prefix_of(s.last().0) {
            // the last entry is in the block, so the block ends at the end
            assert(lo <= n - 1 < hi);
            assert(hi == n);
            assert forall|j: int| lo <= j < hi - 1 implies full.is_prefix_of(
                (#[trigger] head[j]).0,
            ) by {
                assert(head[j] == s[j]);
            }
            assert forall|j: int|
                0 <= j < head.len() && !(lo <= j < hi - 1) implies !full.is_prefix_of(
                (#[trigger] head[j]).0,
            ) by {
                assert(head[j] == s[j]);
            }
            lemma_prefixed_kvs_block(head, full, lo, hi - 1);
            assert(head.subrange(lo, hi - 1) =~= s.subrange(lo, hi - 1));
            assert(prefixed_kvs(s, full) =~= s.subrange(lo, hi));
        } else {
            // the last entry is outside the block
            assert(!(lo <= n - 1 < hi));
            let blo: int = if lo > n - 1 {
                n - 1
            } else {
                lo
            };
            let bhi: int = if hi > n - 1 {
                n - 1
            } else {
                hi
            };
            let ulo: int = if blo <= bhi {
                blo
            } else {
                bhi
            };
            assert forall|j: int| ulo <= j < bhi implies full.is_prefix_of(
                (#[trigger] head[j]).0,
            ) by {
                assert(head[j] == s[j]);
            }
            assert forall|j: int|
                0 <= j < head.len() && !(ulo <= j < bhi) implies !full.is_prefix_of(
                (#[trigger] head[j]).0,
            ) by {
                assert(head[j] == s[j]);
            }
            lemma_prefixed_kvs_block(head, full, ulo, bhi);
            assert(head.subrange(ulo, bhi) =~= s.subrange(lo, hi));
            assert(prefixed_kvs(s, full) =~= s.subrange(lo, hi));
        }
    }
}

/// The cursor of a paginated scan: the queried prefix, the page size, the
/// last raw key already served (the next page starts from it, inclusively),
/// and whether the enumeration is complete.
pub struct ScanCursor {
    pub full_prefix: String,
    pub page_size: usize,
    pub last_key: Option<String>,
    pub done: bool,
}

impl ScanCursor {
    /// The page size is positive and small enough that requesting one extra
    /// entry cannot overflow.
    pub open spec fn wf(self) -> bool {
        1 <= self.page_size < usize::MAX
    }

    /// The last served key as a mathematical value.
    pub open spec fn last_key_view(self) -> Option<Seq<char>> {
        match self.last_key {
            Some(ref k) => Some(k@),
            None => None,
        }
    }

    /// How many entries the next page is asked for: the page size, plus one
    /// on every page after the first to cover the inclusive re-serve of the
    /// last key.
    pub open spec fn expected_len(self) -> int {
        match self.last_key {
            None => self.page_size as int,
            Some(_) => self.page_size + 1,
        }
    }

    /// A fresh cursor over a full (namespaced) prefix.
    pub fn new(full_prefix: String, page_size: usize) -> (c: ScanCursor)
        requires
            1 <= page_size < usize::MAX,
        ensures
            c.wf(),
            c.full_prefix == full_prefix,
            c.page_size == page_size,
            c.last_key_view() is None,
            !c.done,
    {
        ScanCursor { full_prefix, page_size, last_key: None, done: false }
    }

    /// Consume one page: emit its new in-prefix entries, stop at the first
    /// entry that left the prefix or when the page came back short, and
    /// otherwise remember the page's last key as the next page's inclusive
    /// starting point.
    pub fn scan_step(&mut self, page: &Vec<KvEntry>) -> (out: Vec<KvEntry>)
        requires
            old(self).wf(),
            !old(self).done,
        ensures
            final(self).wf(),
            final(self).full_prefix == old(self).full_prefix,
            final(self).page_size == old(self).page_size,
            kvs_of(out@) == emitted_entries(
                kvs_of(page@),
                old(self).full_prefix@,
                old(self).last_key_view(),
            ),
            final(self).done == !(page@.len() >= old(self).expected_len() && page_cut(
                kvs_of(page@),
                old(self).full_prefix@,
            ) == page@.len()),
            !final(self).done ==> page@.len() > 0 && final(self).last_key_view() == Some(
                page@.last().key@,
            ),
    {
        let ghost pv = kvs_of(page@);
        let ghost full = self.full_prefix@;
        let ghost lkv = self.last_key_view();
        let expected = match &self.last_key {
            None => self.page_size,
            Some(_) => self.page_size + 1,
        };
        let mut have_next = page.len() >= expected;
        let mut cut_found = false;
        let mut out: Vec<KvEntry> = Vec::new();
        let mut i: usize = 0;
        proof {
            assert(pv.skip(0) =~= pv);
            assert(kvs_of(out@) =~= Seq::<(Seq<char>, Seq<u8>)>::empty());
            assert(kvs_of(out@) + emitted_entries(pv, full, lkv) =~= emitted_entries(
                pv,
                full,
                lkv,
            ));
        }
        while i < page.len() && !cut_found
            invariant
                self == old(self),
                pv == kvs_of(page@),
                full == old(self).full_prefix@,
                lkv == old(self).last_key_view(),
                i <= page@.len(),
                !cut_found ==> {
                    &&& emitted_entries(pv, full, lkv) == kvs_of(out@) + emitted_entries(
                        pv.skip(i as int),
                        full,
                        lkv,
                    )
                    &&& page_cut(pv, full) == i + page_cut(pv.skip(i as int), full)
                    &&& forall|j: int| 0 <= j < i ==> full.is_prefix_of((#[trigger] pv[j]).0)
                },
                cut_found ==> {
                    &&& kvs_of(out@) == emitted_entries(pv, full, lkv)
                    &&& page_cut(pv, full) < pv.len()
                },
            decreases page@.len() - i + (if cut_found {
                0int
            } else {
                1int
            }),
        {
            let e = &page[i];
            proof {
                assert(pv.skip(i as int).first() == pv[i as int]);
                assert(pv.skip(i as int).drop_first() =~= pv.skip(i + 1));
                assert(pv[i as int].0 == page@[i as int].key@);
            }
            if !starts_with_str(e.key.as_str(), self.full_prefix.as_str()) {
                cut_found = true;
                proof {
                    assert(emitted_entries(pv.skip(i as int), full, lkv) =~= Seq::empty());
                    assert(kvs_of(out@) + Seq::empty() =~= kvs_of(out@));
                    assert(page_cut(pv.skip(i as int), full) == 0);
                }
            } else {
                let dup = match &self.last_key {
                    None => false,
                    Some(lk) => match str_compare(e.key.as_str(), lk.as_str()) {
                        KeyCmp::Equal => true,
                        _ => false,
                    },
                };
                proof {
                    assert(dup == (lkv == Some(pv[i as int].0)));
                }
                if !dup {
                    let copied = KvEntry { key: e.key.clone(), value: clone_bytes(&e.value) };
                    let ghost copied_snap = copied;
                    let ghost out_before = out@;
                    out.push(copied);
                    proof {
                        assert(copied_snap.kv() == pv[i as int]);
                        assert(kvs_of(out@) =~= kvs_of(out_before).push(pv[i as int]));
                        assert(emitted_entries(pv.skip(i as int), full, lkv) == seq![
                            pv[i as int],
                        ] + emitted_entries(pv.skip(i + 1), full, lkv));
                        assert(kvs_of(out@) + emitted_entries(pv.skip(i + 1), full, lkv)
                            =~= kvs_of(out_before) + emitted_entries(pv.skip(i as int), full, lkv));
                    }
                } else {
                    proof {
                        assert(emitted_entries(pv.skip(i as int), full, lkv) == emitted_entries(
                            pv.skip(i + 1),
                            full,
                            lkv,
                        ));
                    }
                }
                i += 1;
            }
        }
        if cut_found {
            have_next = false;
        }
        proof {
            if !cut_found {
                assert(i == page@.len());
                assert(pv.skip(pv.len() as int) =~= Seq::<(Seq<char>, Seq<u8>)>::empty());
                assert(emitted_entries(pv.skip(i as int), full, lkv) =~= Seq::empty());
                assert(kvs_of(out@) + Seq::empty() =~= kvs_of(out@));
                assert(page_cut(pv.skip(i as int), full) == 0);
                assert(page_cut(pv, full) == pv.len());
            }
        }
        if have_next {
            let last_ref = &page[page.len() - 1];
            self.last_key = Some(last_ref.key.clone());
            self.done = false;
        } else {
            self.done = true;
        }
        out
    }
}

/// On a strictly sorted page whose in-prefix entries are exactly the first
/// `c`, a scan step emits those `c` entries, less a re-served first entry.
proof fn lemma_emitted_sorted(
    page: Seq<(Seq<char>, Seq<u8>)>,
    full: Seq<char>,
    last: Option<Seq<char>>,
    c: int,
)
    requires
        0 <= c <= page.len(),
        forall|j: int| 0 <= j < c ==> full.is_prefix_of((#[trigger] page[j]).0),
        c < page.len() ==> !full.is_prefix_of(page[c].0),
        forall|i: int, j: int|
            0 <= i < j < page.len() ==> lex_lt((#[trigger] page[i]).0, (#[trigger] page[j]).0),
        last matches Some(k) ==> forall|j: int| 1 <= j < page.len() ==> (#[trigger] page[j]).0 != k,
    ensures
        page_cut(page, full) == c,
        c > 0 && last == Some(page[0].0) ==> emitted_entries(page, full, last) == page.subrange(
            1,
            c,
        ),
        !(c > 0 && last == Some(page[0].0)) ==> emitted_entries(page, full, last) == page.take(c),
    decreases page.len(),
{
    if page.len() == 0 {
        assert(emitted_entries(page, full, last) =~= page.take(0));
    } else if c == 0 {
        assert(!full.is_prefix_of(page.first().0));
        assert(emitted_entries(page, full, last) =~= page.take(0));
    } else {
        let rest = page.drop_first();
        assert forall|j: int| 0 <= j < c - 1 implies full.is_prefix_of((#[trigger] rest[j]).0) by {
            assert(rest[j] == page[j + 1]);
        }
        assert forall|i: int, j: int|
            0 <= i < j < rest.len() implies lex_lt(
            (#[trigger] rest[i]).0,
            (#[trigger] rest[j]).0,
        ) by {
            assert(rest[i] == page[i + 1] && rest[j] == page[j + 1]);
        }
        match last {
            Some(k) => {
                assert forall|j: int| 1 <= j < rest.len() implies (#[trigger] rest[j]).0 != k by {
                    assert(rest[j] == page[j + 1]);
                }
            },
            None => {},
        }
        if c - 1 < rest.len() {
            assert(rest[c - 1] == page[c]);
        }
        lemma_emitted_sorted(rest, full, last, c - 1);
        // the re-served key can only sit at the front
        if c - 1 > 0 && last == Some(rest[0].0) {
            assert(rest[0] == page[1]);
            assert(false);
        }
        assert(emitted_entries(rest, full, last) == rest.take(c - 1));
        if last == Some(page.first().0) {
            assert(emitted_entries(page, full, last) == rest.take(c - 1));
            assert(rest.take(c - 1) =~= page.subrange(1, c));
        } else {
            assert(emitted_entries(page, full, last) == seq![page.first()] + rest.take(c - 1));
            assert(seq![page.first()] + rest.take(c - 1) =~= page.take(c));
        }
    }
}

/// Move every entry of `src` to the end of `dst`, in order.
fn move_all(dst: &mut Vec<KvEntry>, src: Vec<KvEntry>)
    ensures
        final(dst)@ == old(dst)@ + src@,
{
    let ghost src_snap = src@;
    let mut src = src;
    let total = src.len();
    let mut taken: usize = 0;
    while src.len() > 0
        invariant
            total == src_snap.len(),
            taken + src@.len() == src_snap.len(),
            src@ == src_snap.skip(taken as int),
            dst@ == old(dst)@ + src_snap.take(taken as int),
        decreases src@.len(),
    {
        let e = src.remove(0);
        dst.push(e);
        proof {
            assert(src_snap.take(taken + 1) =~= src_snap.take(taken as int).push(
                src_snap[taken as int],
            ));
            assert(old(dst)@ + src_snap.take(taken + 1) =~= (old(dst)@ + src_snap.take(
                taken as int,
            )).push(src_snap[taken as int]));
            assert(src_snap.skip(taken as int).drop_first() =~= src_snap.skip(taken + 1));
        }
        taken += 1;
    }
    proof {
        assert(src_snap.take(taken as int) =~= src_snap);
    }
}

/// Enumerate every entry under `full`, raw, by paginated scanning: the first
/// page is a prefix query of `page_size` entries; each further page re-serves
/// the last key seen and continues from it. The result does not depend on the
/// page size.
fn scan_prefixed(backend: &KvStore, full: &str, page_size: usize) -> (out: Vec<KvEntry>)
    requires
        backend.wf(),
        1 <= page_size < usize::MAX,
    ensures
        kvs_of(out@) == prefixed_kvs(backend.kv_seq(), full@),
{
    let ghost s = backend.kv_seq();
    let (lo, hi) = backend.prefix_range(full);
    let mut cur = ScanCursor::new(full.to_owned(), page_size);
    let mut out: Vec<KvEntry> = Vec::new();
    let ghost mut m: int = lo as int;

    // first page: a prefix query, so it never crosses the block's end
    let first_limit = if hi - lo < page_size {
        hi - lo
    } else {
        page_size
    };
    let page = backend.page_at(lo, first_limit);
    proof {
        let pv = kvs_of(page@);
        assert(pv == s.subrange(lo as int, lo + first_limit));
        assert forall|j: int| 0 <= j < pv.len() implies full@.is_prefix_of(
            (#[trigger] pv[j]).0,
        ) by {
            assert(pv[j] == s[lo + j]);
        }
        assert forall|i: int, j: int|
            0 <= i < j < pv.len() implies lex_lt((#[trigger] pv[i]).0, (#[trigger] pv[j]).0) by {
            assert(pv[i] == s[lo + i] && pv[j] == s[lo + j]);
            assert(lex_lt(backend.entries@[lo + i].key@, backend.entries@[lo + j].key@));
        }
        lemma_emitted_sorted(pv, full@, None, pv.len() as int);
        assert(pv.take(pv.len() as int) =~= pv);
    }
    let chunk = cur.scan_step(&page);
    move_all(&mut out, chunk);
    proof {
        assert(kvs_of(out@) =~= s.subrange(lo as int, lo + first_limit));
        m = lo + first_limit;
        if !cur.done {
            // the page came back full, so the block continues
            assert(page@.len() >= page_size);
            assert(first_limit == page_size);
            assert(cur.last_key_view() == Some(page@.last().key@));
            assert(kvs_of(page@).last() == s[m - 1]);
            assert(page@.last().key@ == s[m - 1].0);
        } else {
            // a short first page is the whole block
            assert(page@.len() < page_size || page_cut(kvs_of(page@), full@) < page@.len());
            assert(first_limit == hi - lo);
            m = hi as int;
        }
        assert(kvs_of(out@) == s.subrange(lo as int, m));
    }
    while !cur.done
        invariant
            backend.wf(),
            s == backend.kv_seq(),
            cur.wf(),
            cur.full_prefix@ == full@,
            cur.page_size == page_size,
            1 <= page_size < usize::MAX,
            lo <= hi <= s.len(),
            forall|j: int| lo <= j < hi ==> full@.is_prefix_of((#[trigger] s[j]).0),
            forall|j: int| 0 <= j < s.len() && !(lo <= j < hi) ==> !full@.is_prefix_of((#[trigger] s[j]).0),
            lo as int <= m <= hi as int,
            kvs_of(out@) == s.subrange(lo as int, m),
            !cur.done ==> lo < m && m <= hi && cur.last_key_view() == Some(s[m - 1].0),
            cur.done ==> m == hi,
        decreases hi - m + (if cur.done {
            0int
        } else {
            1int
        }),
    {
        let from: String = match &cur.last_key {
            Some(k) => k.clone(),
            None => {
                proof {
                    assert(false);
                }
                String::new()
            },
        };
        let pos = backend.find_lower(from.as_str());
        proof {
            // the cursor key is a live entry, so the seek lands exactly on it
            assert(from@ == s[m - 1].0);
            assert(s[m - 1].0 == backend.entries@[m - 1].key@);
            if (pos as int) < m - 1 {
                assert(crate::keys::lex_le(from@, backend.entries@[pos as int].key@));
                assert(lex_lt(backend.entries@[pos as int].key@, backend.entries@[m - 1].key@));
                crate::keys::lemma_lex_le_lt_transitive(
                    from@,
                    backend.entries@[pos as int].key@,
                    backend.entries@[m - 1].key@,
                );
            }
            if (pos as int) > m - 1 {
                assert(lex_lt(backend.entries@[m - 1].key@, from@));
            }
            assert(pos as int == m - 1);
        }
        let page = backend.page_at(pos, page_size + 1);
        let ghost e_end: int = if m - 1 + page_size + 1 <= s.len() {
            m - 1 + page_size + 1
        } else {
            s.len() as int
        };
        proof {
            let pv = kvs_of(page@);
            assert(pv == s.subrange(m - 1, e_end));
            let c: int = if e_end <= hi {
                e_end - (m - 1)
            } else {
                hi - (m - 1)
            };
            assert forall|j: int| 0 <= j < c implies full@.is_prefix_of((#[trigger] pv[j]).0) by {
                assert(pv[j] == s[m - 1 + j]);
            }
            if c < pv.len() {
                assert(pv[c] == s[m - 1 + c]);
                assert(m - 1 + c == hi);
            }
            assert forall|i: int, j: int|
                0 <= i < j < pv.len() implies lex_lt(
                (#[trigger] pv[i]).0,
                (#[trigger] pv[j]).0,
            ) by {
                assert(pv[i] == s[m - 1 + i] && pv[j] == s[m - 1 + j]);
                assert(lex_lt(backend.entries@[m - 1 + i].key@, backend.entries@[m - 1 + j].key@));
            }
            assert forall|j: int| 1 <= j < pv.len() implies (#[trigger] pv[j]).0 != from@ by {
                assert(pv[j] == s[m - 1 + j]);
                assert(lex_lt(backend.entries@[m - 1].key@, backend.entries@[m - 1 + j].key@));
            }
            lemma_emitted_sorted(pv, full@, Some(from@), c);
            assert(pv[0] == s[m - 1]);
            if c > 0 {
                assert(emitted_entries(pv, full@, Some(from@)) == pv.subrange(1, c));
            } else {
                // the block ended exactly at the cursor: nothing more to emit
                assert(m == hi);
                assert(emitted_entries(pv, full@, Some(from@)) =~= pv.take(0));
            }
        }
        let ghost out_before = out@;
        let chunk = cur.scan_step(&page);
        let ghost chunk_snap = chunk@;
        move_all(&mut out, chunk);
        proof {
            assert(kvs_of(out@) =~= kvs_of(out_before) + kvs_of(chunk_snap));
            let pv = kvs_of(page@);
            let c: int = if e_end <= hi {
                e_end - (m - 1)
            } else {
                hi - (m - 1)
            };
            let new_m: int = if e_end <= hi {
                e_end
            } else {
                hi as int
            };
            if c > 0 {
                assert(pv.subrange(1, c) =~= s.subrange(m, new_m));
            } else {
                assert(pv.take(0) =~= s.subrange(m, new_m));
            }
            assert(kvs_of(out@) =~= s.subrange(lo as int, new_m));
            if !cur.done {
                assert(pv.len() >= page_size + 1);
                assert(page_cut(pv, full@) == pv.len());
                assert(c == pv.len());
                assert(e_end == m - 1 + page_size + 1);
                assert(e_end <= hi);
                assert(new_m == e_end);
                assert(cur.last_key_view() == Some(page@.last().key@));
                assert(kvs_of(page@).last() == s[e_end - 1]);
                assert(page@.last().key@ == s[new_m - 1].0);
                assert(new_m > m);
            } else {
                // short page or an entry outside the prefix: the block is done
                if pv.len() >= page_size + 1 {
                    assert(page_cut(pv, full@) < pv.len());
                    assert(c < pv.len());
                    assert(new_m == hi);
                } else {
                    assert(e_end == s.len());
                    assert(new_m == hi);
                }
            }
            m = new_m;
        }
    }
    proof {
        lemma_prefixed_kvs_block(s, full@, lo as int, hi as int);
    }
    out
}

/// The adapter: every key it sends to the backend is namespaced by this
/// store-wide prefix, and every key it surfaces has it stripped.
pub struct Etcd {
    pub prefix: String,
}

impl Etcd {
    /// Build an adapter over a store prefix; trailing slashes are dropped so
    /// the prefix composes with `/`-rooted keys.
    pub fn new(prefix: &str) -> (e: Etcd)
        ensures
            e.prefix@ == trim_trailing_slashes(prefix@),
    {
        Etcd { prefix: trim_end_slashes(prefix) }
    }

    /// The full form of a data key: the store prefix, then the logical key.
    pub open spec fn data_key(self, key: Seq<char>) -> Seq<char> {
        self.prefix@ + key
    }

    /// The full form of a written key: a `start_dt` appends a `/{start_dt}`
    /// version suffix.
    pub open spec fn put_key(self, key: Seq<char>, start_dt: Option<i64>) -> Seq<char> {
        match start_dt {
            None => self.data_key(key),
            Some(dt) => self.data_key(key) + seq!['/'] + i64_dec_seq(dt as int),
        }
    }

    /// Build the full key an operation on `key` (and optional version)
    /// addresses.
    pub fn build_key(&self, key: &str, start_dt: Option<i64>) -> (r: String)
        ensures
            r@ == self.put_key(key@, start_dt),
    {
        match start_dt {
            None => concat2(self.prefix.as_str(), key),
            Some(dt) => {
                let base = concat2(self.prefix.as_str(), key);
                let suffix = crate::num::i64_to_dec(dt);
                proof {
                    reveal_strlit("/");
                }
                let r = concat3(base.as_str(), "/", suffix.as_str());
                proof {
                    assert(r@ =~= self.put_key(key@, start_dt));
                }
                r
            },
        }
    }

    /// The enumeration of a caller prefix: the entries under its full form,
    /// in key order, with the store prefix stripped off every key.
    pub open spec fn listed_pairs(self, backend: KvStore, prefix: Seq<char>) -> Seq<
        (Seq<char>, Seq<u8>),
    > {
        strip_all(prefixed_kvs(backend.kv_seq(), self.data_key(prefix)), self.prefix@.len() as int)
    }

    /// What reading a key returns: the newest (greatest) live key under it,
    /// relativized, with its value; nothing when none is live.
    pub open spec fn get_result(self, backend: KvStore, key: Seq<char>) -> Option<
        (Seq<char>, Seq<u8>),
    > {
        let f = prefixed_kvs(backend.kv_seq(), self.data_key(key));
        if f.len() > 0 {
            Some((f.last().0.skip(self.prefix@.len() as int), f.last().1))
        } else {
            None
        }
    }

    /// Read the newest live entry under `key`, returning its full stored key
    /// relativized and its value.
    pub fn get_key_value(&self, backend: &KvStore, key: &str) -> (r: Result<
        (String, Vec<u8>),
        crate::errors::Error,
    >)
        requires
            backend.wf(),
        ensures
            r matches Ok(kv) ==> self.get_result(*backend, key@) == Some((kv.0@, kv.1@)),
            r is Err <==> self.get_result(*backend, key@) is None,
            r matches Err(e) ==> e matches crate::errors::Error::NotFound { key: k } && k@
                == self.data_key(key@),
    {
        let full = concat2(self.prefix.as_str(), key);
        let (lo, hi) = backend.prefix_range(full.as_str());
        proof {
            lemma_prefixed_kvs_block(backend.kv_seq(), full@, lo as int, hi as int);
        }
        if lo == hi {
            Err(crate::errors::Error::NotFound { key: full })
        } else {
            let e = &backend.entries[hi - 1];
            proof {
                let f = prefixed_kvs(backend.kv_seq(), full@);
                assert(f.last() == backend.kv_seq()[hi - 1]);
                assert(full@.is_prefix_of(e.key@));
                lemma_prefix_chain(self.prefix@, full@, e.key@);
            }
            let item_key = strip_prefix_string(e.key.as_str(), self.prefix.as_str());
            Ok((item_key, clone_bytes(&e.value)))
        }
    }

    /// Read the newest live value under `key`.
    pub fn get(&self, backend: &KvStore, key: &str) -> (r: Result<Vec<u8>, crate::errors::Error>)
        requires
            backend.wf(),
        ensures
            r matches Ok(v) ==> {
                &&& self.get_result(*backend, key@) is Some
                &&& (self.get_result(*backend, key@)->0).1 == v@
            },
            r is Err <==> self.get_result(*backend, key@) is None,
            r matches Err(e) ==> e matches crate::errors::Error::NotFound { key: k } && k@
                == self.data_key(key@),
    {
        match self.get_key_value(backend, key) {
            Ok((_k, v)) => Ok(v),
            Err(e) => Err(e),
        }
    }

    /// Write `value` under `key`, versioned by `start_dt` when one is given.
    pub fn put(
        &self,
        backend: &mut KvStore,
        key: &str,
        value: Vec<u8>,
        _need_watch: bool,
        start_dt: Option<i64>,
    ) -> (r: Result<(), crate::errors::Error>)
        requires
            old(backend).wf(),
        ensures
            r is Ok,
            final(backend).wf(),
            final(backend).as_map() == old(backend).as_map().insert(
                self.put_key(key@, start_dt),
                value@,
            ),
            final(backend).events_view() == old(backend).events_view().push(
                RawEventView::Put { key: self.put_key(key@, start_dt), value: value@ },
            ),
            final(backend).locks_view() == old(backend).locks_view(),
    {
        let full = self.build_key(key, start_dt);
        backend.put_raw(full.as_str(), value);
        Ok(())
    }

    /// Remove `key` (its versioned form when `start_dt` is given), or with
    /// `with_prefix` the whole subtree under it.
    pub fn delete(
        &self,
        backend: &mut KvStore,
        key: &str,
        with_prefix: bool,
        _need_watch: bool,
        start_dt: Option<i64>,
    ) -> (r: Result<(), crate::errors::Error>)
        requires
            old(backend).wf(),
        ensures
            r is Ok,
            final(backend).wf(),
            final(backend).as_map() == old(backend).as_map().remove_keys(
                Set::new(
                    |q: Seq<char>|
                        crate::store::delete_matches(q, self.put_key(key@, start_dt), with_prefix),
                ),
            ),
            final(backend).events_view() == old(backend).events_view() + crate::store::delete_log(
                old(backend).kv_seq(),
                self.put_key(key@, start_dt),
                with_prefix,
            ),
            final(backend).locks_view() == old(backend).locks_view(),
    {
        let full = self.build_key(key, start_dt);
        backend.delete_raw(full.as_str(), with_prefix);
        Ok(())
    }

    /// Enumerate the live entries under `prefix` as relativized key/value
    /// pairs, in key order, by paginated scanning. The result is the same for
    /// every page size.
    pub fn list(&self, backend: &KvStore, prefix: &str, page_size: usize) -> (res: Vec<
        (String, Vec<u8>),
    >)
        requires
            backend.wf(),
            1 <= page_size < usize::MAX,
        ensures
            pairs_views(res@) == self.listed_pairs(*backend, prefix@),
    {
        let full = concat2(self.prefix.as_str(), prefix);
        let raw = scan_prefixed(backend, full.as_str(), page_size);
        let ghost raw_snap = kvs_of(raw@);
        proof {
            lemma_prefixed_kvs_props(backend.kv_seq(), full@);
        }
        let total = raw.len();
        let mut taken: usize = 0;
        let mut res: Vec<(String, Vec<u8>)> = Vec::new();
        proof {
            assert(pairs_views(res@) =~= strip_all(raw_snap, self.prefix@.len() as int).take(0));
        }
        while taken < total
            invariant
                raw_snap == kvs_of(raw@),
                total == raw_snap.len(),
                total == raw@.len(),
                taken <= total,
                forall|j: int|
                    0 <= j < raw_snap.len() ==> self.prefix@.is_prefix_of(
                        (#[trigger] raw_snap[j]).0,
                    ),
                pairs_views(res@) == strip_all(raw_snap, self.prefix@.len() as int).take(
                    taken as int,
                ),
            decreases total - taken,
        {
            let e = &raw[taken];
            proof {
                assert(e.kv() == raw_snap[taken as int]);
            }
            let item_key = strip_prefix_string(e.key.as_str(), self.prefix.as_str());
            let ghost res_before = res@;
            res.push((item_key, clone_bytes(&e.value)));
            proof {
                assert(pairs_views(res@) =~= pairs_views(res_before).push(
                    strip_all(raw_snap, self.prefix@.len() as int)[taken as int],
                ));
                assert(pairs_views(res@) =~= strip_all(raw_snap, self.prefix@.len() as int).take(
                    taken + 1,
                ));
            }
            taken += 1;
        }
        proof {
            assert(strip_all(raw_snap, self.prefix@.len() as int).take(total as int) =~= strip_all(
                raw_snap,
                self.prefix@.len() as int,
            ));
        }
        res
    }

    /// Enumerate the live keys under `prefix`, relativized, in key order.
    pub fn list_keys(&self, backend: &KvStore, prefix: &str, page_size: usize) -> (res: Vec<
        String,
    >)
        requires
            backend.wf(),
            1 <= page_size < usize::MAX,
        ensures
            res@.map(|i: int, k: String| k@) == self.listed_pairs(*backend, prefix@).map(
                |i: int, p: (Seq<char>, Seq<u8>)| p.0,
            ),
    {
        let pairs = self.list(backend, prefix, page_size);
        let ghost pairs_snap = pairs_views(pairs@);
        let mut pairs = pairs;
        let total = pairs.len();
        let mut taken: usize = 0;
        let mut res: Vec<String> = Vec::new();
        while pairs.len() > 0
            invariant
                total == pairs_snap.len(),
                taken + pairs@.len() == total,
                pairs_views(pairs@) == pairs_snap.skip(taken as int),
                res@.map(|i: int, k: String| k@) == pairs_snap.map(
                    |i: int, p: (Seq<char>, Seq<u8>)| p.0,
                ).take(taken as int),
            decreases pairs@.len(),
        {
            let ghost pairs_before = pairs@;
            let p = pairs.remove(0);
            proof {
                assert forall|t: int| 0 <= t < pairs@.len() implies pairs_views(pairs@)[t]
                    == pairs_views(pairs_before)[t + 1] by {
                    assert(pairs@[t] == pairs_before[t + 1]);
                }
                assert(pairs_views(pairs@) =~= pairs_snap.skip(taken + 1));
                assert((p.0@, p.1@) == pairs_views(pairs_before)[0]);
                assert((p.0@, p.1@) == pairs_snap[taken as int]);
            }
            let ghost res_before = res@;
            res.push(p.0);
            proof {
                assert(res@.map(|i: int, k: String| k@) =~= res_before.map(
                    |i: int, k: String| k@,
                ).push(pairs_snap[taken as int].0));
                assert(res@.map(|i: int, k: String| k@) =~= pairs_snap.map(
                    |i: int, p: (Seq<char>, Seq<u8>)| p.0,
                ).take(taken + 1));
            }
            taken += 1;
        }
        proof {
            assert(pairs_snap.map(|i: int, p: (Seq<char>, Seq<u8>)| p.0).take(total as int)
                =~= pairs_snap.map(|i: int, p: (Seq<char>, Seq<u8>)| p.0));
        }
        res
    }

    /// Enumerate the live values under `prefix`, in key order.
    pub fn list_values(&self, backend: &KvStore, prefix: &str, page_size: usize) -> (res: Vec<
        Vec<u8>,
    >)
        requires
            backend.wf(),
            1 <= page_size < usize::MAX,
        ensures
            res@.map(|i: int, v: Vec<u8>| v@) == self.listed_pairs(*backend, prefix@).map(
                |i: int, p: (Seq<char>, Seq<u8>)| p.1,
            ),
    {
        let pairs = self.list(backend, prefix, page_size);
        let ghost pairs_snap = pairs_views(pairs@);
        let mut pairs = pairs;
        let total = pairs.len();
        let mut taken: usize = 0;
        let mut res: Vec<Vec<u8>> = Vec::new();
        while pairs.len() > 0
            invariant
                total == pairs_snap.len(),
                taken + pairs@.len() == total,
                pairs_views(pairs@) == pairs_snap.skip(taken as int),
                res@.map(|i: int, v: Vec<u8>| v@) == pairs_snap.map(
                    |i: int, p: (Seq<char>, Seq<u8>)| p.1,
                ).take(taken as int),
            decreases pairs@.len(),
        {
            let ghost pairs_before = pairs@;
            let p = pairs.remove(0);
            proof {
                assert forall|t: int| 0 <= t < pairs@.len() implies pairs_views(pairs@)[t]
                    == pairs_views(pairs_before)[t + 1] by {
                    assert(pairs@[t] == pairs_before[t + 1]);
                }
                assert(pairs_views(pairs@) =~= pairs_snap.skip(taken + 1));
                assert((p.0@, p.1@) == pairs_views(pairs_before)[0]);
                assert((p.0@, p.1@) == pairs_snap[taken as int]);
            }
            let ghost res_before = res@;
            res.push(p.1);
            proof {
                assert(res@.map(|i: int, v: Vec<u8>| v@) =~= res_before.map(
                    |i: int, v: Vec<u8>| v@,
                ).push(pairs_snap[taken as int].1));
                assert(res@.map(|i: int, v: Vec<u8>| v@) =~= pairs_snap.map(
                    |i: int, p: (Seq<char>, Seq<u8>)| p.1,
                ).take(taken + 1));
            }
            taken += 1;
        }
        proof {
            assert(pairs_snap.map(|i: int, p: (Seq<char>, Seq<u8>)| p.1).take(total as int)
                =~= pairs_snap.map(|i: int, p: (Seq<char>, Seq<u8>)| p.1));
        }
        res
    }

    /// Enumerate the live values under `prefix`, each tagged with its
    /// version discriminator, keeping only versions within the inclusive
    /// range.
    pub fn list_values_by_start_dt(
        &self,
        backend: &KvStore,
        prefix: &str,
        start_dt: Option<(i64, i64)>,
        page_size: usize,
    ) -> (res: Vec<(i64, Vec<u8>)>)
        requires
            backend.wf(),
            1 <= page_size < usize::MAX,
        ensures
            match start_dt {
                None => dt_views(res@) == self.listed_pairs(*backend, prefix@).map(
                    |i: int, p: (Seq<char>, Seq<u8>)| (0i64, p.1),
                ),
                Some((min_dt, max_dt)) => {
                    if min_dt == 0 && max_dt == 0 {
                        dt_views(res@) == self.listed_pairs(*backend, prefix@).map(
                            |i: int, p: (Seq<char>, Seq<u8>)| (0i64, p.1),
                        )
                    } else {
                        dt_views(res@) == dt_filtered(
                            prefixed_kvs(backend.kv_seq(), self.data_key(prefix@)),
                            min_dt as int,
                            max_dt as int,
                        )
                    }
                },
            },
    {
        let ranged: Option<(i64, i64)> = match start_dt {
            None => None,
            Some((min_dt, max_dt)) => {
                if min_dt == 0 && max_dt == 0 {
                    None
                } else {
                    Some((min_dt, max_dt))
                }
            },
        };
        match ranged {
            None => {
                // no range: every value, tagged with version zero
                let vals = self.list_values(backend, prefix, page_size);
                let ghost vals_snap = vals_views(vals@);
                let ghost tagged = self.listed_pairs(*backend, prefix@).map(
                    |i: int, p: (Seq<char>, Seq<u8>)| (0i64, p.1),
                );
                let mut vals = vals;
                let total = vals.len();
                let mut taken: usize = 0;
                let mut res: Vec<(i64, Vec<u8>)> = Vec::new();
                proof {
                    assert(vals_snap =~= tagged.map(|i: int, p: (i64, Seq<u8>)| p.1));
                }
                while vals.len() > 0
                    invariant
                        total == vals_snap.len(),
                        total == tagged.len(),
                        taken + vals@.len() == total,
                        vals_views(vals@) == vals_snap.skip(taken as int),
                        forall|t: int| 0 <= t < tagged.len() ==> (#[trigger] tagged[t]).0 == 0i64
                            && tagged[t].1 == vals_snap[t],
                        dt_views(res@) == tagged.take(taken as int),
                    decreases vals@.len(),
                {
                    let ghost vals_before = vals@;
                    let v = vals.remove(0);
                    proof {
                        assert forall|t: int|
                            0 <= t < vals@.len() implies #[trigger] vals_views(vals@)[t]
                            == vals_views(vals_before)[t + 1] by {
                            assert(vals@[t] == vals_before[t + 1]);
                        }
                        assert(vals_views(vals@) =~= vals_snap.skip(taken + 1));
                        assert(v@ == vals_views(vals_before)[0]);
                        assert(v@ == vals_snap[taken as int]);
                    }
                    let ghost res_before = res@;
                    res.push((0i64, v));
                    proof {
                        assert(dt_views(res@) =~= dt_views(res_before).push(
                            tagged[taken as int],
                        ));
                        assert(dt_views(res@) =~= tagged.take(taken + 1));
                    }
                    taken += 1;
                }
                proof {
                    assert(tagged.take(total as int) =~= tagged);
                }
                res
            },
            Some((min_dt, max_dt)) => {
                let full = concat2(self.prefix.as_str(), prefix);
                let raw = scan_prefixed(backend, full.as_str(), page_size);
                let ghost raw_snap = kvs_of(raw@);
                let total = raw.len();
                let mut taken: usize = 0;
                let mut res: Vec<(i64, Vec<u8>)> = Vec::new();
                proof {
                    assert(dt_views(res@) =~= dt_filtered(
                        raw_snap.take(0),
                        min_dt as int,
                        max_dt as int,
                    ));
                }
                while taken < total
                    invariant
                        raw_snap == kvs_of(raw@),
                        total == raw_snap.len(),
                        total == raw@.len(),
                        taken <= total,
                        dt_views(res@) == dt_filtered(
                            raw_snap.take(taken as int),
                            min_dt as int,
                            max_dt as int,
                        ),
                    decreases total - taken,
                {
                    let e = &raw[taken];
                    proof {
                        assert(e.kv() == raw_snap[taken as int]);
                        assert(raw_snap.take(taken + 1).drop_last() =~= raw_snap.take(
                            taken as int,
                        ));
                        assert(raw_snap.take(taken + 1).last() == raw_snap[taken as int]);
                    }
                    let segment = crate::keys::last_segment_str(e.key.as_str());
                    let dt = crate::num::parse_i64_or_zero(segment.as_str());
                    if min_dt <= dt && dt <= max_dt {
                        let ghost res_before = res@;
                        res.push((dt, clone_bytes(&e.value)));
                        proof {
                            assert(dt as int == entry_dt(raw_snap[taken as int]));
                            assert(dt_views(res@) =~= dt_views(res_before).push(
                                (dt, raw_snap[taken as int].1),
                            ));
                            assert(dt_views(res@) =~= dt_filtered(
                                raw_snap.take(taken + 1),
                                min_dt as int,
                                max_dt as int,
                            ));
                        }
                    } else {
                        proof {
                            assert(dt as int == entry_dt(raw_snap[taken as int]));
                            assert(dt_views(res@) =~= dt_filtered(
                                raw_snap.take(taken + 1),
                                min_dt as int,
                                max_dt as int,
                            ));
                        }
                    }
                    taken += 1;
                }
                proof {
                    assert(raw_snap.take(total as int) =~= raw_snap);
                }
                res
            },
        }
    }

    /// How many live keys sit under `prefix`.
    pub fn count(&self, backend: &KvStore, prefix: &str) -> (n: usize)
        requires
            backend.wf(),
        ensures
            n == prefixed_kvs(backend.kv_seq(), self.data_key(prefix@)).len(),
    {
        let full = concat2(self.prefix.as_str(), prefix);
        let (lo, hi) = backend.prefix_range(full.as_str());
        proof {
            lemma_prefixed_kvs_block(backend.kv_seq(), full@, lo as int, hi as int);
        }
        hi - lo
    }

    /// The store's size: total bytes of live keys and values (saturating) and
    /// the live key count.
    pub fn stats(&self, backend: &KvStore) -> (r: Stats)
        requires
            backend.wf(),
        ensures
            r.bytes_len as int == crate::store::size_sum(backend.kv_seq()),
            r.keys_count == backend.kv_seq().len(),
    {
        let (bytes_len, keys_count) = backend.sizes();
        Stats { bytes_len, keys_count }
    }

    /// The events a watch on `prefix` delivers for the changes recorded from
    /// position `since` on: each change under the prefix, relativized and
    /// classified, in order.
    pub fn watch_events(&self, backend: &KvStore, prefix: &str, since: usize) -> (res: Vec<Event>)
        requires
            since <= backend.events@.len(),
        ensures
            events_views(res@) == watch_log(
                backend.events_view().skip(since as int),
                self.prefix@,
                self.data_key(prefix@),
            ),
    {
        let full = concat2(self.prefix.as_str(), prefix);
        let ghost evs = backend.events_view().skip(since as int);
        let mut res: Vec<Event> = Vec::new();
        let mut i: usize = since;
        proof {
            assert(evs.take(0) =~= Seq::<RawEventView>::empty());
            assert(events_views(res@) =~= watch_log(evs.take(0), self.prefix@, full@));
        }
        while i < backend.events.len()
            invariant
                since <= i <= backend.events@.len(),
                evs == backend.events_view().skip(since as int),
                full@ == self.data_key(prefix@),
                events_views(res@) == watch_log(evs.take(i - since), self.prefix@, full@),
            decreases backend.events@.len() - i,
        {
            let raw = &backend.events[i];
            let raw_key: &String = match raw {
                RawEvent::Put { key, .. } => key,
                RawEvent::Delete { key } => key,
            };
            proof {
                assert(backend.events_view()[i as int] == raw@);
                assert(evs[i - since] == raw@);
                assert(evs.take(i - since + 1).drop_last() =~= evs.take(i - since));
                assert(evs.take(i - since + 1).last() == raw@);
                assert(raw_key@ == raw@.event_key());
            }
            if starts_with_str(raw_key.as_str(), full.as_str()) {
                proof {
                    lemma_prefix_chain(self.prefix@, full@, raw_key@);
                }
                let ev = classify_event(self.prefix.as_str(), raw);
                let ghost res_before = res@;
                let ghost ev_snap = ev@;
                res.push(ev);
                proof {
                    assert(events_views(res@) =~= events_views(res_before).push(ev_snap));
                    assert(events_views(res@) =~= watch_log(
                        evs.take(i - since + 1),
                        self.prefix@,
                        full@,
                    ));
                }
            } else {
                proof {
                    assert(events_views(res@) =~= watch_log(
                        evs.take(i - since + 1),
                        self.prefix@,
                        full@,
                    ));
                }
            }
            i += 1;
        }
        proof {
            assert(evs.take(backend.events@.len() - since) =~= evs);
        }
        res
    }

    /// Interface parity with schema-bearing backends: this one has no table
    /// to create.
    pub fn create_table(&self) -> (r: Result<(), crate::errors::Error>)
        ensures
            r is Ok,
    {
        Ok(())
    }

    /// Interface parity: nothing to tear down.
    pub fn close(&self) -> (r: Result<(), crate::errors::Error>)
        ensures
            r is Ok,
    {
        Ok(())
    }

    /// Interface parity: versioned keys need no schema change here.
    pub fn add_start_dt_column(&self) -> (r: Result<(), crate::errors::Error>)
        ensures
            r is Ok,
    {
        Ok(())
    }
}

/// Key/value statistics of the store.
pub struct Stats {
    pub bytes_len: u64,
    pub keys_count: usize,
}

/// Relativize every key of an enumeration by dropping `n` leading characters.
pub open spec fn strip_all(s: Seq<(Seq<char>, Seq<u8>)>, n: int) -> Seq<(Seq<char>, Seq<u8>)> {
    s.map(|i: int, p: (Seq<char>, Seq<u8>)| (p.0.skip(n), p.1))
}

/// A sequence of owned pairs as mathematical values.
pub open spec fn pairs_views(ps: Seq<(String, Vec<u8>)>) -> Seq<(Seq<char>, Seq<u8>)> {
    ps.map(|i: int, p: (String, Vec<u8>)| (p.0@, p.1@))
}

/// A sequence of owned values as mathematical values.
pub open spec fn vals_views(vs: Seq<Vec<u8>>) -> Seq<Seq<u8>> {
    vs.map(|i: int, v: Vec<u8>| v@)
}

/// A sequence of version-tagged values as mathematical values.
pub open spec fn dt_views(ps: Seq<(i64, Vec<u8>)>) -> Seq<(i64, Seq<u8>)> {
    ps.map(|i: int, p: (i64, Vec<u8>)| (p.0, p.1@))
}

/// The version discriminator of a stored entry: its key's trailing path
/// segment read as a decimal integer, zero when missing or malformed.
pub open spec fn entry_dt(p: (Seq<char>, Seq<u8>)) -> int {
    crate::num::i64_or_zero(crate::keys::last_segment(p.0))
}

/// The version-tagged values of the entries whose version falls within the
/// inclusive range, in key order.
pub open spec fn dt_filtered(s: Seq<(Seq<char>, Seq<u8>)>, min_dt: int, max_dt: int) -> Seq<
    (i64, Seq<u8>),
>
    decreases s.len(),
{
    if s.len() == 0 {
        Seq::empty()
    } else if min_dt <= entry_dt(s.last()) <= max_dt {
        dt_filtered(s.drop_last(), min_dt, max_dt).push(
            (entry_dt(s.last()) as i64, s.last().1),
        )
    } else {
        dt_filtered(s.drop_last(), min_dt, max_dt)
    }
}

/// A prefix of a prefix of a string is a prefix of that string.
pub proof fn lemma_prefix_chain(p: Seq<char>, q: Seq<char>, s: Seq<char>)
    requires
        p.is_prefix_of(q),
        q.is_prefix_of(s),
    ensures
        p.is_prefix_of(s),
{
    assert(p =~= s.take(p.len() as int)) by {
        assert(p =~= q.take(p.len() as int));
        assert(q =~= s.take(q.len() as int));
    }
}

/// Every entry of the enumeration is a live entry under the prefix, every
/// live entry under the prefix is in the enumeration, and order is kept.
pub proof fn lemma_prefixed_kvs_props(s: Seq<(Seq<char>, Seq<u8>)>, full: Seq<char>)
    ensures
        prefixed_kvs(s, full).len() <= s.len(),
        forall|j: int|
            #![trigger prefixed_kvs(s, full)[j]]
            0 <= j < prefixed_kvs(s, full).len() ==> full.is_prefix_of(prefixed_kvs(s, full)[j].0)
                && exists|t: int| 0 <= t < s.len() && s[t] == prefixed_kvs(s, full)[j],
        forall|t: int|
            0 <= t < s.len() && full.is_prefix_of((#[trigger] s[t]).0) ==> prefixed_kvs(
                s,
                full,
            ).contains(s[t]),
        (forall|i: int, j: int|
            0 <= i < j < s.len() ==> lex_lt((#[trigger] s[i]).0, (#[trigger] s[j]).0)) ==> forall|
            i: int,
            j: int,
        |
            0 <= i < j < prefixed_kvs(s, full).len() ==> lex_lt(
                (#[trigger] prefixed_kvs(s, full)[i]).0,
                (#[trigger] prefixed_kvs(s, full)[j]).0,
            ),
    decreases s.len(),
{
    let out = prefixed_kvs(s, full);
    if s.len() > 0 {
        let head = s.drop_last();
        lemma_prefixed_kvs_props(head, full);
        let sub = prefixed_kvs(head, full);
        assert forall|t: int|
            0 <= t < s.len() && full.is_prefix_of((#[trigger] s[t]).0) implies out.contains(
            s[t],
        ) by {
            if t == s.len() - 1 {
                assert(out[out.len() - 1] == s[t]);
            } else {
                assert(head[t] == s[t]);
                assert(sub.contains(s[t]));
                let j = choose|j: int| 0 <= j < sub.len() && sub[j] == s[t];
                assert(out[j] == s[t]);
            }
        }
        if forall|i: int, j: int|
            0 <= i < j < s.len() ==> lex_lt((#[trigger] s[i]).0, (#[trigger] s[j]).0) {
            assert forall|i: int, j: int|
                0 <= i < j < s.len() - 1 implies lex_lt(
                (#[trigger] head[i]).0,
                (#[trigger] head[j]).0,
            ) by {
                assert(head[i] == s[i] && head[j] == s[j]);
            }
            assert forall|i: int, j: int|
                0 <= i < j < out.len() implies lex_lt(
                (#[trigger] out[i]).0,
                (#[trigger] out[j]).0,
            ) by {
                if j < sub.len() {
                    assert(out[i] == sub[i] && out[j] == sub[j]);
                } else {
                    assert(out[j] == s[s.len() - 1]);
                    assert(out[i] == sub[i]);
                    let t = choose|t: int| 0 <= t < head.len() && head[t] == sub[i];
                    assert(s[t] == sub[i]);
                    assert(lex_lt(s[t].0, s[s.len() - 1].0));
                }
            }
        }
    }
}

} // verus!
