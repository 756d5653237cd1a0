//! Decimal rendering and parsing of integers. Versioned keys carry a decimal
//! `start_dt` suffix, lock scopes embed one, and compaction offsets are stored
//! as decimal text, so both directions are needed, with parsing agreeing with
//! the standard library's `i64` grammar: an optional sign, then one or more
//! ASCII digits, and the value within the `i64` range.

use vstd::prelude::*;

verus! {

/// The decimal digit character for a value in `0..10`.
pub open spec fn dec_digit(d: int) -> char {
    ((48 + d) as u32) as char
}

/// The decimal rendering of a natural number, most significant digit first,
/// with no leading zeros (a single `'0'` for zero).
pub open spec fn u64_dec_seq(n: nat) -> Seq<char>
    decreases n,
{
    if n < 10 {
        seq![dec_digit(n as int)]
    } else {
        u64_dec_seq(n / 10) + seq![dec_digit((n % 10) as int)]
    }
}

/// The decimal rendering of a signed integer: a `'-'` sign for negative
/// values, then the magnitude's digits.
pub open spec fn i64_dec_seq(n: int) -> Seq<char> {
    if n < 0 {
        seq!['-'] + u64_dec_seq((-n) as nat)
    } else {
        u64_dec_seq(n as nat)
    }
}

/// Is `c` an ASCII decimal digit?
pub open spec fn is_dec_digit(c: char) -> bool {
    48 <= (c as u32) <= 57
}

/// The numeric value of a sequence of decimal digits, most significant first.
/// An empty sequence has value zero.
pub open spec fn dec_value(s: Seq<char>) -> int
    decreases s.len(),
{
    if s.len() == 0 {
        0
    } else {
        dec_value(s.drop_last()) * 10 + ((s.last() as u32) - 48)
    }
}

/// The digit part of a decimal string: everything after an optional leading
/// sign.
pub open spec fn dec_digits_part(s: Seq<char>) -> Seq<char> {
    if s.len() > 0 && (s[0] == '+' || s[0] == '-') {
        s.skip(1)
    } else {
        s
    }
}

/// Is `s` negative by its sign character?
pub open spec fn dec_is_negative(s: Seq<char>) -> bool {
    s.len() > 0 && s[0] == '-'
}

/// The signed value denoted by a decimal string, ignoring range limits.
pub open spec fn dec_signed_value(s: Seq<char>) -> int {
    if dec_is_negative(s) {
        -dec_value(dec_digits_part(s))
    } else {
        dec_value(dec_digits_part(s))
    }
}

/// Does `s` parse as an `i64` under the standard grammar: an optional sign,
/// at least one digit, nothing else, and the value within the `i64` range?
pub open spec fn is_i64_string(s: Seq<char>) -> bool {
    let ds = dec_digits_part(s);
    &&& ds.len() > 0
    &&& forall|i: int| 0 <= i < ds.len() ==> is_dec_digit(#[trigger] ds[i])
    &&& i64::MIN <= dec_signed_value(s) <= i64::MAX
}

/// The `i64` a string parses to, with malformed input parsing to zero.
pub open spec fn i64_or_zero(s: Seq<char>) -> int {
    if is_i64_string(s) {
        dec_signed_value(s)
    } else {
        0
    }
}

/// Render one decimal digit as a string.
fn digit_to_str(d: u64) -> (r: String)
    requires
        d < 10,
    ensures
        r@ == seq![dec_digit(d as int)],
        r@.len() == 1,
{
    let r = if d == 0 {
        proof {
            reveal_strlit("0");
        }
        "0"
    } else if d == 1 {
        proof {
            reveal_strlit("1");
        }
        "1"
    } else if d == 2 {
        proof {
            reveal_strlit("2");
        }
        "2"
    } else if d == 3 {
        proof {
            reveal_strlit("3");
        }
        "3"
    } else if d == 4 {
        proof {
            reveal_strlit("4");
        }
        "4"
    } else if d == 5 {
        proof {
            reveal_strlit("5");
        }
        "5"
    } else if d == 6 {
        proof {
            reveal_strlit("6");
        }
        "6"
    } else if d == 7 {
        proof {
            reveal_strlit("7");
        }
        "7"
    } else if d == 8 {
        proof {
            reveal_strlit("8");
        }
        "8"
    } else {
        proof {
            reveal_strlit("9");
        }
        "9"
    };
    r.to_owned()
}

/// Render a `u64` in decimal.
pub fn u64_to_dec(n: u64) -> (r: String)
    ensures
        r@ == u64_dec_seq(n as nat),
    decreases n,
{
    if n < 10 {
        digit_to_str(n)
    } else {
        let high = u64_to_dec(n / 10);
        let low = digit_to_str(n % 10);
        let r = high.concat(low.as_str());
        r
    }
}

/// A digit sequence's value never goes negative.
proof fn lemma_dec_value_nonneg(s: Seq<char>)
    requires
        forall|i: int| 0 <= i < s.len() ==> is_dec_digit(#[trigger] s[i]),
    ensures
        dec_value(s) >= 0,
    decreases s.len(),
{
    if s.len() > 0 {
        lemma_dec_value_nonneg(s.drop_last());
    }
}

/// Extending a digit sequence can only increase its value.
proof fn lemma_dec_value_monotone(s: Seq<char>, j: int)
    requires
        forall|i: int| 0 <= i < s.len() ==> is_dec_digit(#[trigger] s[i]),
        0 <= j <= s.len(),
    ensures
        dec_value(s) >= dec_value(s.take(j)),
    decreases s.len() - j,
{
    if j < s.len() {
        assert(s.take(j + 1).drop_last() =~= s.take(j));
        assert(s.take(j + 1).last() == s[j]);
        lemma_dec_value_nonneg(s.take(j));
        lemma_dec_value_monotone(s, j + 1);
    } else {
        assert(s.take(j) =~= s);
    }
}

/// Parse a string as an `i64` under the standard grammar; `None` exactly on
/// malformed or out-of-range input.
pub fn parse_i64(s: &str) -> (r: Option<i64>)
    ensures
        r is Some <==> is_i64_string(s@),
        r is Some ==> r->0 as int == dec_signed_value(s@),
{
    let len = s.unicode_len();
    let mut start: usize = 0;
    let mut neg = false;
    if len > 0 {
        let c0 = s.get_char(0);
        if c0 == '+' {
            start = 1;
        } else if c0 == '-' {
            neg = true;
            start = 1;
        }
    }
    if start >= len {
        // Empty input, or a bare sign with no digits.
        return None;
    }
    let ghost ds = dec_digits_part(s@);
    proof {
        assert(ds =~= s@.skip(start as int));
    }
    let mut acc: u64 = 0;
    let mut i: usize = start;
    while i < len
        invariant
            start <= i <= len,
            start < len,
            len == s@.len(),
            ds == dec_digits_part(s@),
            ds == s@.skip(start as int),
            neg == dec_is_negative(s@),
            forall|k: int| 0 <= k < i - start ==> is_dec_digit(#[trigger] ds[k]),
            acc as int == dec_value(ds.take(i - start)),
        decreases len - i,
    {
        let c = s.get_char(i);
        if !('0' <= c && c <= '9') {
            proof {
                assert(ds[i - start] == s@[i as int]);
                assert(!is_dec_digit(ds[i - start]));
            }
            return None;
        }
        let d: u64 = ((c as u32) - 48) as u64;
        proof {
            assert(is_dec_digit(s@[i as int]));
        }
        if acc > (u64::MAX - d) / 10 {
            // The value already exceeds `u64::MAX`, so whatever follows, the
            // whole string is out of the `i64` range or malformed.
            proof {
                assert(ds.take(i - start + 1).drop_last() =~= ds.take(i - start));
                assert(ds.take(i - start + 1).last() == ds[i - start]);
                assert(dec_value(ds.take(i - start + 1)) > u64::MAX);
                if is_i64_string(s@) {
                    lemma_dec_value_monotone(ds, i - start + 1);
                    assert(dec_value(ds) > u64::MAX);
                    assert(false);
                }
            }
            return None;
        }
        proof {
            assert(ds.take(i - start + 1).drop_last() =~= ds.take(i - start));
            assert(ds.take(i - start + 1).last() == ds[i - start]);
        }
        acc = acc * 10 + d;
        i += 1;
    }
    proof {
        assert(ds.take(len - start) =~= ds);
    }
    if neg {
        if acc > 9223372036854775808u64 {
            return None;
        }
        if acc == 9223372036854775808u64 {
            Some(i64::MIN)
        } else {
            Some(-(acc as i64))
        }
    } else {
        if acc > 9223372036854775807u64 {
            return None;
        }
        Some(acc as i64)
    }
}

/// Parse a string as an `i64`, with malformed or out-of-range input parsing
/// to zero, as when a missing version suffix is treated as version zero.
pub fn parse_i64_or_zero(s: &str) -> (r: i64)
    ensures
        r as int == i64_or_zero(s@),
{
    match parse_i64(s) {
        Some(v) => v,
        None => 0,
    }
}

/// The digits a `u64` renders to are decimal digits that parse back to the
/// same value.
pub proof fn lemma_u64_dec_roundtrip(n: nat)
    requires
        n <= u64::MAX,
    ensures
        u64_dec_seq(n).len() >= 1,
        forall|i: int| 0 <= i < u64_dec_seq(n).len() ==> is_dec_digit(#[trigger] u64_dec_seq(n)[i]),
        dec_value(u64_dec_seq(n)) == n,
    decreases n,
{
    if n < 10 {
        assert(u64_dec_seq(n) =~= seq![dec_digit(n as int)]);
        assert(is_dec_digit(dec_digit(n as int)));
        assert(dec_value(u64_dec_seq(n).drop_last()) == 0);
    } else {
        lemma_u64_dec_roundtrip(n / 10);
        let w = u64_dec_seq(n);
        assert(w =~= u64_dec_seq(n / 10) + seq![dec_digit((n % 10) as int)]);
        assert(w.drop_last() =~= u64_dec_seq(n / 10));
        assert(w.last() == dec_digit((n % 10) as int));
    }
}

/// Rendering an `i64` and parsing it back returns the same value.
pub proof fn lemma_i64_dec_roundtrip(n: int)
    requires
        i64::MIN <= n <= i64::MAX,
    ensures
        is_i64_string(i64_dec_seq(n)),
        dec_signed_value(i64_dec_seq(n)) == n,
        i64_or_zero(i64_dec_seq(n)) == n,
{
    if n < 0 {
        lemma_u64_dec_roundtrip((-n) as nat);
        let w = i64_dec_seq(n);
        assert(w[0] == '-');
        assert(dec_digits_part(w) =~= u64_dec_seq((-n) as nat));
        assert(dec_is_negative(w));
    } else {
        lemma_u64_dec_roundtrip(n as nat);
        let w = i64_dec_seq(n);
        assert(w == u64_dec_seq(n as nat));
        assert(is_dec_digit(w[0]));
        assert(w[0] != '+' && w[0] != '-');
        assert(dec_digits_part(w) == w);
        assert(!dec_is_negative(w));
    }
}

/// Render an `i64` in decimal, with a leading `'-'` for negative values.
pub fn i64_to_dec(n: i64) -> (r: String)
    ensures
        r@ == i64_dec_seq(n as int),
{
    if n >= 0 {
        u64_to_dec(n as u64)
    } else {
        // The magnitude of `i64::MIN` overflows `i64`, so step through
        // `-(n + 1) + 1` in `u64`.
        let m: u64 = ((-(n + 1)) as u64) + 1;
        proof {
            reveal_strlit("-");
        }
        let digits = u64_to_dec(m);
        let r = crate::keys::concat2("-", digits.as_str());
        proof {
            assert(r@ =~= i64_dec_seq(n as int));
        }
        r
    }
}

} // verus!
