//! The store's governing laws, stated over the operations' own
//! specifications: a write is read back, a delete reads as missing, and
//! serialized read-modify-write increments compose — the cluster-wide final
//! value of N serialized counter updates is the start plus N, with no lost
//! update.

use vstd::prelude::*;
use crate::etcd::Etcd;
use crate::num::{i64_dec_seq, i64_or_zero, lemma_i64_dec_roundtrip};
use crate::store::KvStore;

verus! {

/// After storing `v` under a key, reading the key returns `v` — provided no
/// other live key extends it, since a read surfaces the newest versioned
/// record under the key.
pub proof fn lemma_put_then_get(e: Etcd, post: KvStore, key: Seq<char>, v: Seq<u8>)
    requires
        post.wf(),
        post.as_map().contains_key(e.data_key(key)),
        post.as_map()[e.data_key(key)] == v,
        forall|q: Seq<char>|
            post.as_map().contains_key(q) && e.data_key(key).is_prefix_of(q) ==> q == e.data_key(
                key,
            ),
    ensures
        e.get_result(post, key) == Some((key, v)),
{
    let full = e.data_key(key);
    let s = post.kv_seq();
    crate::etcd::lemma_prefixed_kvs_props(s, full);
    let f = crate::etcd::prefixed_kvs(s, full);
    // the stored entry is under the prefix, so the enumeration is nonempty
    assert(post.contains_key(full));
    let i = post.index_of_key(full);
    post.lemma_entry_at(i);
    assert(s[i] == (full, v));
    assert(full =~= full.take(full.len() as int));
    assert(full.is_prefix_of(full));
    assert(f.contains(s[i]));
    // and every enumerated entry is that one entry
    assert forall|t: int| 0 <= t < f.len() implies f[t] == (full, v) by {
        let o = choose|o: int| 0 <= o < s.len() && s[o] == f[t];
        post.lemma_entry_at(o);
        assert(post.as_map().contains_key(s[o].0));
        assert(full.is_prefix_of(s[o].0));
        assert(s[o].0 == full);
        assert(post.index_of_key(full) == o);
        assert(o == i);
    }
    assert(f.len() > 0);
    assert(f.last() == (full, v));
    assert(full.skip(e.prefix@.len() as int) =~= key);
}

/// After a key is gone — and no versioned record under it survives —
/// reading it reports a missing key.
pub proof fn lemma_delete_then_get(e: Etcd, post: KvStore, key: Seq<char>)
    requires
        post.wf(),
        forall|q: Seq<char>|
            post.as_map().contains_key(q) ==> !e.data_key(key).is_prefix_of(q),
    ensures
        e.get_result(post, key) is None,
{
    let full = e.data_key(key);
    let s = post.kv_seq();
    crate::etcd::lemma_prefixed_kvs_props(s, full);
    let f = crate::etcd::prefixed_kvs(s, full);
    if f.len() > 0 {
        let o = choose|o: int| 0 <= o < s.len() && s[o] == f[0];
        post.lemma_entry_at(o);
        assert(post.as_map().contains_key(s[o].0));
        assert(full.is_prefix_of(s[o].0));
        assert(false);
    }
}

/// Dropping a shared prefix keeps strict lexicographic order.
proof fn lemma_lex_lt_skip_common(a: Seq<char>, b: Seq<char>, n: int)
    requires
        0 <= n <= a.len(),
        n <= b.len(),
        a.take(n) == b.take(n),
        crate::keys::lex_lt(a, b),
    ensures
        crate::keys::lex_lt(a.skip(n), b.skip(n)),
    decreases n,
{
    if n == 0 {
        assert(a.skip(0) =~= a);
        assert(b.skip(0) =~= b);
    } else {
        assert(a.take(n)[0] == a[0]);
        assert(b.take(n)[0] == b[0]);
        assert(a[0] == b[0]);
        // heads agree, so the order is decided past them
        assert(crate::keys::lex_le(a.skip(1), b.skip(1)));
        if a.skip(1) == b.skip(1) {
            assert(a =~= seq![a[0]] + a.skip(1));
            assert(b =~= seq![b[0]] + b.skip(1));
            assert(false);
        }
        assert(a.skip(1).take(n - 1) =~= a.take(n).skip(1));
        assert(b.skip(1).take(n - 1) =~= b.take(n).skip(1));
        lemma_lex_lt_skip_common(a.skip(1), b.skip(1), n - 1);
        assert(a.skip(1).skip(n - 1) =~= a.skip(n));
        assert(b.skip(1).skip(n - 1) =~= b.skip(n));
    }
}

/// A string re-assembles from a prefix of it and the rest.
proof fn lemma_prefix_reassemble(sp: Seq<char>, k: Seq<char>)
    requires
        sp.is_prefix_of(k),
    ensures
        sp + k.skip(sp.len() as int) == k,
{
    assert(sp + k.skip(sp.len() as int) =~= k);
}

/// An enumeration is exactly the live key set under its prefix: every listed
/// pair is a live binding whose key extends the queried prefix, every such
/// binding is listed, and keys come in strictly increasing order, so nothing
/// is skipped, duplicated or invented — whatever the page size was.
pub proof fn lemma_list_exact(e: Etcd, backend: KvStore, prefix: Seq<char>)
    requires
        backend.wf(),
    ensures
        forall|j: int|
            #![trigger e.listed_pairs(backend, prefix)[j]]
            0 <= j < e.listed_pairs(backend, prefix).len() ==> {
                let p = e.listed_pairs(backend, prefix)[j];
                &&& backend.as_map().contains_key(e.prefix@ + p.0)
                &&& backend.as_map()[e.prefix@ + p.0] == p.1
                &&& e.data_key(prefix).is_prefix_of(e.prefix@ + p.0)
            },
        forall|q: Seq<char>|
            backend.as_map().contains_key(q) && e.data_key(prefix).is_prefix_of(q)
                ==> exists|j: int|
                0 <= j < e.listed_pairs(backend, prefix).len()
                    && #[trigger] e.listed_pairs(backend, prefix)[j] == (
                q.skip(e.prefix@.len() as int),
                backend.as_map()[q],
                ),
        forall|i: int, j: int|
            0 <= i < j < e.listed_pairs(backend, prefix).len() ==> crate::keys::lex_lt(
                (#[trigger] e.listed_pairs(backend, prefix)[i]).0,
                (#[trigger] e.listed_pairs(backend, prefix)[j]).0,
            ),
{
    let full = e.data_key(prefix);
    let sp = e.prefix@;
    let plen = sp.len() as int;
    let s = backend.kv_seq();
    crate::etcd::lemma_prefixed_kvs_props(s, full);
    let f = crate::etcd::prefixed_kvs(s, full);
    let listed = e.listed_pairs(backend, prefix);
    assert(sp.is_prefix_of(full)) by {
        assert(sp =~= full.take(plen));
    }
    assert forall|j: int| 0 <= j < listed.len() implies {
        let p = #[trigger] listed[j];
        &&& backend.as_map().contains_key(sp + p.0)
        &&& backend.as_map()[sp + p.0] == p.1
        &&& full.is_prefix_of(sp + p.0)
    } by {
        assert(listed[j] == (f[j].0.skip(plen), f[j].1));
        let t = choose|t: int| 0 <= t < s.len() && s[t] == f[j];
        backend.lemma_entry_at(t);
        crate::etcd::lemma_prefix_chain(sp, full, f[j].0);
        lemma_prefix_reassemble(sp, f[j].0);
    }
    assert forall|q: Seq<char>|
        backend.as_map().contains_key(q) && full.is_prefix_of(q) implies exists|j: int|
        0 <= j < listed.len() && #[trigger] listed[j] == (
        q.skip(plen),
        backend.as_map()[q],
        ) by {
        let t = choose|t: int| 0 <= t < backend.entries@.len() && backend.entries@[t].key@ == q;
        assert(s[t].0 == q);
        backend.lemma_entry_at(t);
        assert(f.contains(s[t]));
        let j = choose|j: int| 0 <= j < f.len() && f[j] == s[t];
        assert(listed[j] == (q.skip(plen), backend.as_map()[q]));
    }
    assert forall|i: int, j: int|
        0 <= i < j < listed.len() implies crate::keys::lex_lt(
        (#[trigger] listed[i]).0,
        (#[trigger] listed[j]).0,
    ) by {
        assert(forall|a: int, b: int|
            0 <= a < b < s.len() ==> crate::keys::lex_lt(
                (#[trigger] s[a]).0,
                (#[trigger] s[b]).0,
            ));
        assert(crate::keys::lex_lt(f[i].0, f[j].0));
        crate::etcd::lemma_prefix_chain(sp, full, f[i].0);
        crate::etcd::lemma_prefix_chain(sp, full, f[j].0);
        assert(f[i].0.take(plen) =~= sp);
        assert(f[j].0.take(plen) =~= sp);
        lemma_lex_lt_skip_common(f[i].0, f[j].0, plen);
        assert(listed[i].0 == f[i].0.skip(plen));
        assert(listed[j].0 == f[j].0.skip(plen));
    }
}

/// A byte sequence read as characters, as a stored decimal counter is.
pub open spec fn bytes_as_chars(b: Seq<u8>) -> Seq<char> {
    b.map(|i: int, x: u8| x as char)
}

/// The stored form of a counter value: its decimal text, as bytes.
pub open spec fn counter_bytes(n: int) -> Seq<u8> {
    i64_dec_seq(n).map(|i: int, c: char| c as u8)
}

/// The counter a map holds under `k`: the stored decimal text, a missing or
/// malformed entry counting as zero.
pub open spec fn counter_value(m: Map<Seq<char>, Seq<u8>>, k: Seq<char>) -> int {
    if m.contains_key(k) {
        i64_or_zero(bytes_as_chars(m[k]))
    } else {
        0
    }
}

/// One serialized read-modify-write round of a counter increment: read the
/// value (zero when missing), add one, store the decimal text back.
pub open spec fn counter_round(m: Map<Seq<char>, Seq<u8>>, k: Seq<char>) -> Map<
    Seq<char>,
    Seq<u8>,
> {
    m.insert(k, counter_bytes(counter_value(m, k) + 1))
}

/// `n` serialized increment rounds, in sequence.
pub open spec fn counter_rounds(m: Map<Seq<char>, Seq<u8>>, k: Seq<char>, n: nat) -> Map<
    Seq<char>,
    Seq<u8>,
>
    decreases n,
{
    if n == 0 {
        m
    } else {
        counter_round(counter_rounds(m, k, (n - 1) as nat), k)
    }
}

/// An ASCII character survives the trip through a byte.
proof fn lemma_ascii_char_byte(c: char)
    requires
        (c as u32) < 128,
    ensures
        ((c as u8) as char) == c,
{
    assert(((c as u8) as char) as u32 == c as u32);
    crate::keys::lemma_char_eq_from_u32((c as u8) as char, c);
}

/// Decimal counter text survives the trip through bytes and parses back to
/// its value.
proof fn lemma_counter_bytes_roundtrip(n: int)
    requires
        0 <= n <= i64::MAX,
    ensures
        i64_or_zero(bytes_as_chars(counter_bytes(n))) == n,
{
    crate::num::lemma_u64_dec_roundtrip(n as nat);
    lemma_i64_dec_roundtrip(n);
    let w = i64_dec_seq(n);
    assert(w == crate::num::u64_dec_seq(n as nat));
    assert forall|i: int| 0 <= i < w.len() implies bytes_as_chars(counter_bytes(n))[i] == w[i] by {
        assert(crate::num::is_dec_digit(w[i]));
        assert((w[i] as u32) < 128);
        lemma_ascii_char_byte(w[i]);
        assert(counter_bytes(n)[i] == w[i] as u8);
    }
    assert(bytes_as_chars(counter_bytes(n)) =~= w);
}

/// One increment round raises the counter by exactly one.
proof fn lemma_counter_round_one(m: Map<Seq<char>, Seq<u8>>, k: Seq<char>)
    requires
        0 <= counter_value(m, k),
        counter_value(m, k) + 1 <= i64::MAX,
    ensures
        counter_value(counter_round(m, k), k) == counter_value(m, k) + 1,
{
    let v = counter_value(m, k);
    lemma_counter_bytes_roundtrip(v + 1);
    assert(counter_round(m, k)[k] == counter_bytes(v + 1));
}

/// N serialized increments compose: the final counter is the start plus N —
/// no update is lost when every read-modify-write runs under the lock.
pub proof fn lemma_counter_rounds_compose(m: Map<Seq<char>, Seq<u8>>, k: Seq<char>, n: nat)
    requires
        0 <= counter_value(m, k),
        counter_value(m, k) + n <= i64::MAX,
    ensures
        counter_value(counter_rounds(m, k, n), k) == counter_value(m, k) + n,
    decreases n,
{
    if n > 0 {
        lemma_counter_rounds_compose(m, k, (n - 1) as nat);
        lemma_counter_round_one(counter_rounds(m, k, (n - 1) as nat), k);
    }
}

} // verus!
