//! Compaction offsets per organization and module: the offset (and optionally
//! the node that owns it) is stored as decimal text under a well-known key.
//! Encoding and decoding are exact; the store round trip lives outside.

use vstd::prelude::*;
use crate::keys::concat2;
use crate::num::{dec_signed_value, i64_dec_seq, is_i64_string, parse_i64};

verus! {

/// The key a compaction offset is stored under.
pub fn mk_key(org_id: &str, module: &str) -> (r: String)
    ensures
        r@ == "/compact/organization/"@ + org_id@ + "/"@ + module@,
{
    let a = concat2("/compact/organization/", org_id);
    let b = concat2(a.as_str(), "/");
    concat2(b.as_str(), module)
}

/// The stored text for an offset: the decimal offset, and `;node` when a node
/// owns it.
pub open spec fn encoded_offset(offset: int, node: Option<Seq<char>>) -> Seq<char> {
    match node {
        Some(n) => i64_dec_seq(offset) + seq![';'] + n,
        None => i64_dec_seq(offset),
    }
}

/// Encode an offset, with its owning node when one is given.
pub fn encode_offset(offset: i64, node: Option<&str>) -> (r: String)
    ensures
        r@ == encoded_offset(
            offset as int,
            match node {
                Some(n) => Some(n@),
                None => None,
            },
        ),
{
    let digits = crate::num::i64_to_dec(offset);
    match node {
        Some(n) => {
            proof {
                reveal_strlit(";");
            }
            let r = crate::keys::concat3(digits.as_str(), ";", n);
            proof {
                assert(r@ =~= encoded_offset(offset as int, Some(n@)));
            }
            r
        },
        None => digits,
    }
}

/// The part of a stored offset before the first `;`, or all of it.
pub open spec fn before_semi(s: Seq<char>) -> Seq<char>
    decreases s.len(),
{
    if s.len() == 0 {
        s
    } else if s.first() == ';' {
        Seq::empty()
    } else {
        seq![s.first()] + before_semi(s.drop_first())
    }
}

/// The part after the first `;`; empty when there is none.
pub open spec fn after_semi(s: Seq<char>) -> Seq<char>
    decreases s.len(),
{
    if s.len() == 0 {
        Seq::empty()
    } else if s.first() == ';' {
        s.drop_first()
    } else {
        after_semi(s.drop_first())
    }
}

/// Does the stored text decode: empty means offset zero; with a `;`, the part
/// before it must be a decimal offset and the node follows; otherwise the
/// whole text must be a decimal offset.
pub open spec fn offset_value_wf(s: Seq<char>) -> bool {
    if s.len() == 0 {
        true
    } else {
        is_i64_string(before_semi(s))
    }
}

/// The decoded offset of well-formed text.
pub open spec fn decoded_offset(s: Seq<char>) -> int {
    if s.len() == 0 {
        0
    } else {
        dec_signed_value(before_semi(s))
    }
}

/// The decoded owning node: the segment between the first `;` and the next
/// one (or the end).
pub open spec fn decoded_node(s: Seq<char>) -> Seq<char> {
    before_semi(after_semi(s))
}

/// Decode a stored offset: empty text means offset zero with no node; a `;`
/// separates the offset from the owning node. Malformed digits decode to
/// nothing rather than halting the caller.
pub fn try_decode_offset(value: &str) -> (r: Option<(i64, String)>)
    ensures
        r is Some <==> offset_value_wf(value@),
        r matches Some(p) ==> p.0 as int == decoded_offset(value@) && p.1@ == decoded_node(value@),
{
    let len = value.unicode_len();
    if len == 0 {
        proof {
            assert(decoded_node(value@) =~= Seq::<char>::empty());
        }
        return Some((0, String::new()));
    }
    // find the first `;`
    let mut j: usize = 0;
    proof {
        assert(value@.skip(0) =~= value@);
        assert(before_semi(value@) =~= value@.take(0) + before_semi(value@.skip(0)));
    }
    while j < len && value.get_char(j) != ';'
        invariant
            j <= len,
            len == value@.len(),
            before_semi(value@) == value@.take(j as int) + before_semi(value@.skip(j as int)),
            after_semi(value@) == after_semi(value@.skip(j as int)),
            forall|t: int| 0 <= t < j ==> value@[t] != ';',
        decreases len - j,
    {
        proof {
            assert(value@.skip(j as int).first() == value@[j as int]);
            assert(value@.skip(j as int).drop_first() =~= value@.skip(j + 1));
            assert(value@.take(j + 1) =~= value@.take(j as int) + seq![value@[j as int]]);
            assert(value@.take(j as int) + (seq![value@[j as int]] + before_semi(
                value@.skip(j + 1),
            )) =~= value@.take(j + 1) + before_semi(value@.skip(j + 1)));
        }
        j += 1;
    }
    proof {
        if j < len {
            assert(value@.skip(j as int).first() == value@[j as int]);
            assert(before_semi(value@.skip(j as int)) =~= Seq::<char>::empty());
            assert(before_semi(value@) =~= value@.take(j as int));
            assert(after_semi(value@) =~= value@.skip(j as int).drop_first());
            assert(value@.skip(j as int).drop_first() =~= value@.skip(j + 1));
        } else {
            assert(value@.skip(j as int) =~= Seq::<char>::empty());
            assert(before_semi(value@) =~= value@.take(j as int));
            assert(after_semi(value@) =~= Seq::<char>::empty());
        }
    }
    let digits = value.substring_char(0, j);
    match parse_i64(digits) {
        Some(offset) => {
            if j < len {
                // the node runs to the next `;`, or to the end
                let node_start = j + 1;
                let ghost tail = value@.skip(node_start as int);
                let mut j2: usize = node_start;
                proof {
                    assert(tail.skip(0) =~= tail);
                    assert(before_semi(tail) =~= tail.take(0) + before_semi(tail.skip(0)));
                }
                while j2 < len && value.get_char(j2) != ';'
                    invariant
                        node_start <= j2 <= len,
                        len == value@.len(),
                        tail == value@.skip(node_start as int),
                        before_semi(tail) == tail.take(j2 - node_start) + before_semi(
                            tail.skip(j2 - node_start),
                        ),
                    decreases len - j2,
                {
                    proof {
                        let t = j2 - node_start;
                        assert(tail.skip(t).first() == tail[t]);
                        assert(tail[t] == value@[j2 as int]);
                        assert(tail.skip(t).drop_first() =~= tail.skip(t + 1));
                        assert(tail.take(t + 1) =~= tail.take(t) + seq![tail[t]]);
                        assert(tail.take(t) + (seq![tail[t]] + before_semi(tail.skip(t + 1)))
                            =~= tail.take(t + 1) + before_semi(tail.skip(t + 1)));
                    }
                    j2 += 1;
                }
                proof {
                    let t = j2 - node_start;
                    if j2 < len {
                        assert(tail.skip(t).first() == tail[t]);
                        assert(tail[t] == value@[j2 as int]);
                        assert(before_semi(tail.skip(t)) =~= Seq::<char>::empty());
                    } else {
                        assert(tail.skip(t) =~= Seq::<char>::empty());
                    }
                    assert(before_semi(tail) =~= tail.take(t));
                    assert(tail.take(t) =~= value@.subrange(node_start as int, j2 as int));
                }
                let node = value.substring_char(node_start, j2).to_owned();
                proof {
                    assert(node@ =~= decoded_node(value@));
                }
                Some((offset, node))
            } else {
                proof {
                    assert(decoded_node(value@) =~= Seq::<char>::empty());
                }
                Some((offset, String::new()))
            }
        },
        None => None,
    }
}

} // verus!
