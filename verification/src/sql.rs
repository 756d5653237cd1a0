//! Query-metadata helpers shared with the search path: result ordering,
//! filter operators, quote trimming, and the normalization of numeric
//! timestamps to microseconds.

use vstd::prelude::*;
use crate::errors::Error;

verus! {

/// Result ordering for a sorted query.
#[derive(Clone, Copy, Debug, Default, Eq, PartialEq, Structural)]
pub enum OrderBy {
    #[default]
    Desc,
    Asc,
}

/// The operators a quick-text filter can carry.
#[derive(Clone, Copy, Debug, Eq, PartialEq, Structural)]
pub enum SqlOperator {
    And,
    Or,
    Eq,
    Neq,
    Gt,
    Gte,
    Lt,
    Lte,
    Like,
    Nop,
}

/// Is `s` wrapped in the quote character `c` on both ends?
pub open spec fn wrapped_in(s: Seq<char>, c: char) -> bool {
    s.len() >= 2 && s.first() == c && s.last() == c
}

/// One layer of double quotes stripped, then one layer of single quotes.
pub open spec fn trimmed_quotes(s: Seq<char>) -> Seq<char> {
    let t = if wrapped_in(s, '"') {
        s.subrange(1, s.len() - 1)
    } else {
        s
    };
    if wrapped_in(t, '\'') {
        t.subrange(1, t.len() - 1)
    } else {
        t
    }
}

/// Strip a surrounding pair of double quotes, then a surrounding pair of
/// single quotes.
pub fn trim_quotes(s: &str) -> (r: String)
    ensures
        r@ == trimmed_quotes(s@),
{
    let len = s.unicode_len();
    let (t, tlen) = if len >= 2 && s.get_char(0) == '"' && s.get_char(len - 1) == '"' {
        (s.substring_char(1, len - 1), len - 2)
    } else {
        (s, len)
    };
    if tlen >= 2 && t.get_char(0) == '\'' && t.get_char(tlen - 1) == '\'' {
        t.substring_char(1, tlen - 1).to_owned()
    } else {
        t.to_owned()
    }
}

/// A numeric timestamp normalized to microseconds: zero means "none"; a
/// value is read as nanoseconds, microseconds, milliseconds or seconds by
/// its magnitude; anything not past the seconds scale is rejected.
pub open spec fn normalized_timestamp(n: int) -> Option<Option<int>> {
    if n == 0 {
        Some(None)
    } else if n > 1000000000000000000 {
        Some(Some(n / 1000))
    } else if n > 1000000000000000 {
        Some(Some(n))
    } else if n > 1000000000000 {
        Some(Some(n * 1000))
    } else if n > 1000000000 {
        Some(Some(n * 1000000))
    } else {
        None
    }
}

/// Normalize a numeric timestamp to microseconds, by magnitude.
pub fn parse_timestamp(n: i64) -> (r: Result<Option<i64>, Error>)
    ensures
        r matches Ok(v) ==> {
            &&& normalized_timestamp(n as int) is Some
            &&& match v {
                Some(us) => normalized_timestamp(n as int)->0 == Some(us as int),
                None => normalized_timestamp(n as int)->0 is None,
            }
        },
        r is Err <==> normalized_timestamp(n as int) is None,
        r matches Err(e) ==> e is Malformed,
{
    if n == 0 {
        Ok(None)
    } else if n > 1000000000000000000i64 {
        Ok(Some(n / 1000))
    } else if n > 1000000000000000i64 {
        Ok(Some(n))
    } else if n > 1000000000000i64 {
        Ok(Some(n * 1000))
    } else if n > 1000000000i64 {
        Ok(Some(n * 1000000))
    } else {
        Err(Error::Malformed { detail: crate::num::i64_to_dec(n) })
    }
}

} // verus!
