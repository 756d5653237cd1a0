//! Key-namespace utilities: every key stored in the backend is namespaced by
//! a store-wide prefix, lock names live in a `locker` sub-namespace, and
//! versioned records append a `/{start_dt}` suffix. This module holds the
//! string primitives those conventions are built from, together with the
//! lexicographic order on keys that paginated scanning relies on.

use vstd::prelude::*;

verus! {

/// Lexicographic order (non-strict) on character sequences, by code point.
pub open spec fn lex_le(a: Seq<char>, b: Seq<char>) -> bool
    decreases a.len(),
{
    if a.len() == 0 {
        true
    } else if b.len() == 0 {
        false
    } else if (a[0] as u32) < (b[0] as u32) {
        true
    } else if (a[0] as u32) > (b[0] as u32) {
        false
    } else {
        lex_le(a.skip(1), b.skip(1))
    }
}

/// Strict lexicographic order on character sequences.
pub open spec fn lex_lt(a: Seq<char>, b: Seq<char>) -> bool {
    lex_le(a, b) && a != b
}

/// Two characters with the same code point are the same character.
pub proof fn lemma_char_eq_from_u32(x: char, y: char)
    requires
        x as u32 == y as u32,
    ensures
        x == y,
{
}

pub proof fn lemma_lex_le_total(a: Seq<char>, b: Seq<char>)
    ensures
        lex_le(a, b) || lex_le(b, a),
    decreases a.len(),
{
    if a.len() != 0 && b.len() != 0 && (a[0] as u32) == (b[0] as u32) {
        lemma_lex_le_total(a.skip(1), b.skip(1));
    }
}

pub proof fn lemma_lex_le_antisymmetric(a: Seq<char>, b: Seq<char>)
    requires
        lex_le(a, b),
        lex_le(b, a),
    ensures
        a == b,
    decreases a.len(),
{
    if a.len() != 0 && b.len() != 0 {
        lemma_char_eq_from_u32(a[0], b[0]);
        lemma_lex_le_antisymmetric(a.skip(1), b.skip(1));
        assert(a =~= seq![a[0]] + a.skip(1));
        assert(b =~= seq![b[0]] + b.skip(1));
    } else if a.len() == 0 {
        assert(b.len() == 0);
        assert(a =~= b);
    }
}

pub proof fn lemma_lex_le_transitive(a: Seq<char>, b: Seq<char>, c: Seq<char>)
    requires
        lex_le(a, b),
        lex_le(b, c),
    ensures
        lex_le(a, c),
    decreases a.len(),
{
    if a.len() != 0 && b.len() != 0 && c.len() != 0 && (a[0] as u32) == (b[0] as u32) && (b[0]
        as u32) == (c[0] as u32) {
        lemma_lex_le_transitive(a.skip(1), b.skip(1), c.skip(1));
    }
}

/// Three-way comparison result for keys.
#[derive(Clone, Copy, PartialEq, Eq, Structural, Debug)]
pub enum KeyCmp {
    Less,
    Equal,
    Greater,
}

/// Compare two strings in lexicographic order by code point.
pub fn str_compare(a: &str, b: &str) -> (r: KeyCmp)
    ensures
        r == KeyCmp::Less ==> lex_lt(a@, b@),
        r == KeyCmp::Equal ==> a@ == b@,
        r == KeyCmp::Greater ==> lex_lt(b@, a@),
{
    let a_len = a.unicode_len();
    let b_len = b.unicode_len();
    let n = if a_len < b_len {
        a_len
    } else {
        b_len
    };
    let mut i: usize = 0;
    while i < n
        invariant
            i <= n,
            n <= a_len,
            n <= b_len,
            a_len == a@.len(),
            b_len == b@.len(),
            n == if a_len < b_len { a_len as int } else { b_len as int },
            a@.take(i as int) =~= b@.take(i as int),
        decreases n - i,
    {
        let ca = a.get_char(i);
        let cb = b.get_char(i);
        if (ca as u32) < (cb as u32) {
            proof {
                lemma_lex_first_diff(a@, b@, i as int);
            }
            return KeyCmp::Less;
        }
        if (ca as u32) > (cb as u32) {
            proof {
                lemma_lex_first_diff(b@, a@, i as int);
            }
            return KeyCmp::Greater;
        }
        proof {
            assert(a@.take(i + 1) =~= a@.take(i as int).push(a@[i as int]));
            assert(b@.take(i + 1) =~= b@.take(i as int).push(b@[i as int]));
        }
        i += 1;
    }
    if a_len < b_len {
        proof {
            assert(a@ =~= a@.take(a_len as int));
            lemma_lex_proper_prefix(a@, b@);
        }
        KeyCmp::Less
    } else if b_len < a_len {
        proof {
            assert(b@ =~= b@.take(b_len as int));
            lemma_lex_proper_prefix(b@, a@);
        }
        KeyCmp::Greater
    } else {
        proof {
            assert(a@ =~= a@.take(a_len as int));
            assert(b@ =~= b@.take(b_len as int));
            assert(a@ =~= b@);
        }
        KeyCmp::Equal
    }
}

/// If `a` and `b` agree on their first `i` characters and `a[i] < b[i]`,
/// then `a` is lexicographically strictly below `b`.
proof fn lemma_lex_first_diff(a: Seq<char>, b: Seq<char>, i: int)
    requires
        0 <= i < a.len(),
        i < b.len(),
        a.take(i) == b.take(i),
        (a[i] as u32) < (b[i] as u32),
    ensures
        lex_lt(a, b),
    decreases i,
{
    if i == 0 {
        assert(a[0] != b[0]);
        assert(a != b);
    } else {
        assert(a.take(i)[0] == a[0]);
        assert(b.take(i)[0] == b[0]);
        assert(a.skip(1).take(i - 1) =~= a.take(i).skip(1));
        assert(b.skip(1).take(i - 1) =~= b.take(i).skip(1));
        lemma_lex_first_diff(a.skip(1), b.skip(1), i - 1);
        assert(a =~= seq![a[0]] + a.skip(1));
        assert(b =~= seq![b[0]] + b.skip(1));
    }
}

/// A proper prefix is lexicographically strictly below the longer string.
proof fn lemma_lex_proper_prefix(a: Seq<char>, b: Seq<char>)
    requires
        a.len() < b.len(),
        a == b.take(a.len() as int),
    ensures
        lex_lt(a, b),
    decreases a.len(),
{
    if a.len() != 0 {
        assert(a[0] == b[0]);
        assert(a.skip(1) =~= b.skip(1).take(a.len() - 1));
        lemma_lex_proper_prefix(a.skip(1), b.skip(1));
        assert(a =~= seq![a[0]] + a.skip(1));
        assert(b =~= seq![b[0]] + b.skip(1));
    } else {
        assert(a != b);
    }
}

pub proof fn lemma_lex_lt_lt_transitive(a: Seq<char>, b: Seq<char>, c: Seq<char>)
    requires
        lex_lt(a, b),
        lex_lt(b, c),
    ensures
        lex_lt(a, c),
{
    lemma_lex_le_transitive(a, b, c);
    if a == c {
        lemma_lex_le_antisymmetric(a, b);
    }
}

pub proof fn lemma_lex_le_lt_transitive(a: Seq<char>, b: Seq<char>, c: Seq<char>)
    requires
        lex_le(a, b),
        lex_lt(b, c),
    ensures
        lex_lt(a, c),
{
    lemma_lex_le_transitive(a, b, c);
    if a == c {
        lemma_lex_le_antisymmetric(a, b);
    }
}

pub proof fn lemma_lex_lt_le_transitive(a: Seq<char>, b: Seq<char>, c: Seq<char>)
    requires
        lex_lt(a, b),
        lex_le(b, c),
    ensures
        lex_lt(a, c),
{
    lemma_lex_le_transitive(a, b, c);
    if a == c {
        lemma_lex_le_antisymmetric(b, c);
    }
}

/// A nonempty string is never lexicographically above another nonempty
/// string whose first code point is smaller.
proof fn lemma_lex_le_heads(a: Seq<char>, b: Seq<char>)
    requires
        lex_le(a, b),
        a.len() > 0,
        b.len() > 0,
    ensures
        (a[0] as u32) <= (b[0] as u32),
{
}

/// The keys that start with a given prefix form an interval in lexicographic
/// order: anything between two of them also starts with that prefix. This is
/// what lets a paginated scan stop at the first key that leaves the prefix.
pub proof fn lemma_lex_prefix_interval(p: Seq<char>, a: Seq<char>, b: Seq<char>, c: Seq<char>)
    requires
        lex_le(a, b),
        lex_le(b, c),
        p.is_prefix_of(a),
        p.is_prefix_of(c),
    ensures
        p.is_prefix_of(b),
    decreases p.len(),
{
    if p.len() > 0 {
        assert(a[0] == p[0]);
        assert(c[0] == p[0]);
        assert(a.len() > 0);
        if b.len() == 0 {
            assert(!lex_le(a, b));
        }
        lemma_lex_le_heads(a, b);
        lemma_lex_le_heads(b, c);
        lemma_char_eq_from_u32(b[0], p[0]);
        assert(lex_le(a.skip(1), b.skip(1)));
        assert(lex_le(b.skip(1), c.skip(1)));
        assert(p.skip(1).is_prefix_of(a.skip(1))) by {
            assert(p.skip(1) =~= a.skip(1).take(p.len() - 1));
        }
        assert(p.skip(1).is_prefix_of(c.skip(1))) by {
            assert(p.skip(1) =~= c.skip(1).take(p.len() - 1));
        }
        lemma_lex_prefix_interval(p.skip(1), a.skip(1), b.skip(1), c.skip(1));
        assert(p =~= b.take(p.len() as int)) by {
            assert(p.skip(1) =~= b.skip(1).take(p.len() - 1));
            assert(p =~= seq![p[0]] + p.skip(1));
            assert(b.take(p.len() as int) =~= seq![b[0]] + b.skip(1).take(p.len() - 1));
        }
    } else {
        assert(p =~= b.take(0));
    }
}

/// The part of `s` after its last `/`, or all of `s` when it has none.
pub open spec fn last_segment(s: Seq<char>) -> Seq<char>
    decreases s.len(),
{
    if s.len() == 0 {
        s
    } else if s.last() == '/' {
        Seq::empty()
    } else {
        last_segment(s.drop_last()) + seq![s.last()]
    }
}

/// Return the substring after the last `/`, or the whole string when it has
/// none: the trailing path segment, where a versioned key keeps its
/// `start_dt`.
pub fn last_segment_str(s: &str) -> (r: String)
    ensures
        r@ == last_segment(s@),
{
    let len = s.unicode_len();
    let mut j: usize = len;
    proof {
        assert(s@.take(len as int) =~= s@);
        assert(last_segment(s@) =~= last_segment(s@.take(j as int)) + s@.skip(j as int));
    }
    while j > 0 && s.get_char(j - 1) != '/'
        invariant
            j <= len,
            len == s@.len(),
            last_segment(s@) == last_segment(s@.take(j as int)) + s@.skip(j as int),
        decreases j,
    {
        proof {
            assert(s@.take(j as int).last() == s@[j - 1]);
            assert(s@.take(j as int).drop_last() =~= s@.take(j - 1));
            assert(last_segment(s@.take(j as int)) =~= last_segment(s@.take(j - 1)) + seq![
                s@[j - 1],
            ]);
            assert(last_segment(s@.take(j - 1)) + seq![s@[j - 1]] + s@.skip(j as int)
                =~= last_segment(s@.take(j - 1)) + s@.skip(j - 1));
        }
        j -= 1;
    }
    proof {
        if j > 0 {
            assert(s@.take(j as int).last() == s@[j - 1]);
            assert(last_segment(s@.take(j as int)) =~= Seq::empty());
        } else {
            assert(s@.take(0) =~= Seq::<char>::empty());
        }
        assert(last_segment(s@) =~= s@.skip(j as int));
    }
    s.substring_char(j, len).to_owned()
}

/// Does `s` start with `p`?
pub fn starts_with_str(s: &str, p: &str) -> (r: bool)
    ensures
        r == p@.is_prefix_of(s@),
{
    let s_len = s.unicode_len();
    let p_len = p.unicode_len();
    if p_len > s_len {
        return false;
    }
    let mut i: usize = 0;
    while i < p_len
        invariant
            i <= p_len,
            p_len <= s_len,
            s_len == s@.len(),
            p_len == p@.len(),
            p@.take(i as int) =~= s@.take(i as int),
        decreases p_len - i,
    {
        if s.get_char(i) != p.get_char(i) {
            proof {
                assert(p@[i as int] != s@.take(p_len as int)[i as int]);
            }
            return false;
        }
        proof {
            assert(p@.take(i + 1) =~= p@.take(i as int).push(p@[i as int]));
            assert(s@.take(i + 1) =~= s@.take(i as int).push(s@[i as int]));
        }
        i += 1;
    }
    proof {
        assert(p@ =~= s@.take(p_len as int));
    }
    true
}

/// Strip a known prefix from a string, returning the remainder as an owned
/// string.
pub fn strip_prefix_string(s: &str, p: &str) -> (r: String)
    requires
        p@.is_prefix_of(s@),
    ensures
        r@ == s@.skip(p@.len() as int),
{
    let s_len = s.unicode_len();
    let p_len = p.unicode_len();
    let rest = s.substring_char(p_len, s_len);
    rest.to_owned()
}

/// Concatenate two strings.
pub fn concat2(a: &str, b: &str) -> (r: String)
    ensures
        r@ == a@ + b@,
{
    let mut r = a.to_owned();
    r.append(b);
    r
}

/// Concatenate three strings.
pub fn concat3(a: &str, b: &str, c: &str) -> (r: String)
    ensures
        r@ == a@ + b@ + c@,
{
    let mut r = a.to_owned();
    r.append(b);
    r.append(c);
    r
}

/// The string with every trailing `/` removed.
pub open spec fn trim_trailing_slashes(s: Seq<char>) -> Seq<char>
    decreases s.len(),
{
    if s.len() > 0 && s.last() == '/' {
        trim_trailing_slashes(s.drop_last())
    } else {
        s
    }
}

/// Remove every trailing `/` from a string.
pub fn trim_end_slashes(s: &str) -> (r: String)
    ensures
        r@ == trim_trailing_slashes(s@),
{
    let len = s.unicode_len();
    let mut cut: usize = len;
    proof {
        assert(s@.take(len as int) =~= s@);
    }
    while cut > 0 && s.get_char(cut - 1) == '/'
        invariant
            cut <= len,
            len == s@.len(),
            trim_trailing_slashes(s@) == trim_trailing_slashes(s@.take(cut as int)),
        decreases cut,
    {
        proof {
            assert(s@.take(cut as int).last() == s@[cut - 1]);
            assert(s@.take(cut as int).drop_last() =~= s@.take(cut - 1));
        }
        cut -= 1;
    }
    proof {
        assert(s@.take(len as int) =~= s@);
        if cut > 0 {
            assert(s@.take(cut as int).last() == s@[cut - 1]);
        }
        assert(trim_trailing_slashes(s@.take(cut as int)) == s@.take(cut as int));
    }
    s.substring_char(0, cut).to_owned()
}

} // verus!
