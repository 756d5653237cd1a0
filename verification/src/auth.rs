//! Identity helpers shared with the request layer: the e-mail shape accepted
//! for user ids, the character set the authorization backend accepts in
//! object names, and the role resolution used outside the enterprise build.

use vstd::prelude::*;

verus! {

/// A user's role within an organization.
#[derive(Clone, Copy, Debug, PartialEq, Eq, Structural)]
pub enum UserRole {
    Root,
    Admin,
}

/// The role record carried on an organization membership.
pub struct UserOrgRole {
    pub base_role: UserRole,
}

/// Resolve the effective role of a membership; without an external
/// authorizer every member administrates.
pub fn get_role(_role: &UserOrgRole) -> (r: UserRole)
    ensures
        r == UserRole::Admin,
{
    UserRole::Admin
}

/// The authenticated user id a request carries.
pub struct UserEmail {
    pub user_id: String,
}

/// What permission checking extracts from a request: the credential, the
/// method, the object acted on, the organization, and whether the check is
/// bypassed.
#[derive(Debug, PartialEq, Eq)]
pub struct AuthExtractor {
    pub auth: String,
    pub method: String,
    pub o2_type: String,
    pub org_id: String,
    pub bypass_check: bool,
    pub parent_id: String,
}

/// An ASCII letter.
pub open spec fn is_ascii_letter(c: char) -> bool {
    ('a' <= c && c <= 'z') || ('A' <= c && c <= 'Z')
}

/// An ASCII digit.
pub open spec fn is_digit_ch(c: char) -> bool {
    '0' <= c && c <= '9'
}

/// An ASCII letter or digit.
pub open spec fn is_alnum(c: char) -> bool {
    is_ascii_letter(c) || is_digit_ch(c)
}

/// A character the local part of an address may begin or end with.
pub open spec fn is_local_char(c: char) -> bool {
    is_alnum(c) || c == '_' || c == '+'
}

/// A character the local part may hold between its ends.
pub open spec fn is_local_mid(c: char) -> bool {
    is_local_char(c) || c == '.' || c == '-'
}

/// A label separator within a domain.
pub open spec fn is_domain_sep(c: char) -> bool {
    c == '.' || c == '-'
}

/// A character a domain's label chain may hold.
pub open spec fn is_domain_chain_char(c: char) -> bool {
    is_alnum(c) || is_domain_sep(c)
}

/// A valid local part: nonempty, begins and ends with a local character, and
/// holds only local characters, dots and hyphens in between.
pub open spec fn valid_local(s: Seq<char>) -> bool {
    &&& s.len() >= 1
    &&& is_local_char(s.first())
    &&& is_local_char(s.last())
    &&& forall|i: int| 0 < i < s.len() - 1 ==> is_local_mid(#[trigger] s[i])
}

/// Position `p` closes a valid domain prefix: the characters before it form
/// a chain of alphanumeric labels joined by single dots or hyphens, `p`
/// itself is a dot, and at least two letters follow it (the top-level label).
pub open spec fn domain_prefix_at(rest: Seq<char>, p: int) -> bool {
    &&& 1 <= p
    &&& p + 2 < rest.len()
    &&& rest[p] == '.'
    &&& is_alnum(rest[0])
    &&& is_alnum(rest[p - 1])
    &&& forall|j: int| 0 <= j < p ==> is_domain_chain_char(#[trigger] rest[j])
    &&& forall|j: int|
        0 <= j < p - 1 ==> !(is_domain_sep(#[trigger] rest[j]) && is_domain_sep(rest[j + 1]))
    &&& is_ascii_letter(rest[p + 1])
    &&& is_ascii_letter(rest[p + 2])
}

/// Does some prefix of `rest` form a valid domain?
pub open spec fn domain_matches(rest: Seq<char>) -> bool {
    exists|p: int| domain_prefix_at(rest, p)
}

/// The accepted address shape: a valid local part, an `@`, then a valid
/// domain prefix; anything may follow the domain's top-level label.
pub open spec fn email_matches(s: Seq<char>) -> bool {
    exists|j: int|
        #![trigger s[j]]
        0 <= j < s.len() && s[j] == '@' && valid_local(s.take(j)) && domain_matches(s.skip(j + 1))
}

/// Is `c` acceptable at the ends of a local part?
fn ch_local(c: char) -> (r: bool)
    ensures
        r == is_local_char(c),
{
    ('a' <= c && c <= 'z') || ('A' <= c && c <= 'Z') || ('0' <= c && c <= '9') || c == '_' || c
        == '+'
}

/// Is `c` acceptable inside a local part?
fn ch_local_mid(c: char) -> (r: bool)
    ensures
        r == is_local_mid(c),
{
    ch_local(c) || c == '.' || c == '-'
}

/// Is `c` an ASCII letter or digit?
fn ch_alnum(c: char) -> (r: bool)
    ensures
        r == is_alnum(c),
{
    ('a' <= c && c <= 'z') || ('A' <= c && c <= 'Z') || ('0' <= c && c <= '9')
}

/// Is `c` an ASCII letter?
fn ch_letter(c: char) -> (r: bool)
    ensures
        r == is_ascii_letter(c),
{
    ('a' <= c && c <= 'z') || ('A' <= c && c <= 'Z')
}

/// Check the local part: the first `j` characters of `s`.
fn check_local(s: &str, j: usize) -> (r: bool)
    requires
        j <= s@.len(),
    ensures
        r == valid_local(s@.take(j as int)),
{
    let ghost local = s@.take(j as int);
    if j == 0 {
        return false;
    }
    if !ch_local(s.get_char(0)) {
        proof {
            assert(local.first() == s@[0]);
        }
        return false;
    }
    if !ch_local(s.get_char(j - 1)) {
        proof {
            assert(local.last() == s@[j - 1]);
        }
        return false;
    }
    let mut i: usize = 1;
    while i < j - 1
        invariant
            1 <= i,
            i <= j <= s@.len(),
            local == s@.take(j as int),
            forall|t: int| 0 < t < i ==> is_local_mid(#[trigger] local[t]),
        decreases j - i,
    {
        if !ch_local_mid(s.get_char(i)) {
            proof {
                assert(local[i as int] == s@[i as int]);
            }
            return false;
        }
        i += 1;
    }
    proof {
        assert(local.first() == s@[0]);
        assert(local.last() == s@[j - 1]);
    }
    true
}

/// Check whether some prefix of `s` from position `start` forms a valid
/// domain, scanning the label chain once and testing each dot as the
/// potential top-level boundary.
fn check_domain(s: &str, start: usize) -> (r: bool)
    requires
        start <= s@.len(),
    ensures
        r == domain_matches(s@.skip(start as int)),
{
    let ghost rest = s@.skip(start as int);
    let len = s.unicode_len();
    let n = len - start;
    let mut q: usize = 0;
    let mut broke = false;
    while q < n && !broke
        invariant
            q <= n,
            n == rest.len(),
            rest == s@.skip(start as int),
            len == s@.len(),
            n == len - start,
            start <= len,
            forall|t: int| 0 <= t < q ==> is_domain_chain_char(#[trigger] rest[t]),
            q > 0 ==> is_alnum(rest[0]),
            forall|t: int|
                0 <= t < q - 1 ==> !(is_domain_sep(#[trigger] rest[t]) && is_domain_sep(
                    rest[t + 1],
                )),
            forall|p: int| 1 <= p < q ==> !domain_prefix_at(rest, p),
            broke ==> q < n && !domain_prefix_at(rest, q as int) && ((q == 0 && !is_alnum(rest[0]))
                || !is_domain_chain_char(rest[q as int]) || (q >= 1 && is_domain_sep(
                rest[q as int],
            ) && is_domain_sep(rest[q - 1]))),
        decreases n - q + (if broke {
            0int
        } else {
            1int
        }),
    {
        let c = s.get_char(start + q);
        proof {
            assert(rest[q as int] == s@[start + q]);
        }
        // is this dot the boundary before the top-level label?
        if c == '.' && q >= 1 {
            let prev_ok = ch_alnum(s.get_char(start + q - 1));
            proof {
                assert(rest[q - 1] == s@[start + q - 1]);
            }
            if prev_ok && n - q > 2 {
                let l1 = ch_letter(s.get_char(start + q + 1));
                let l2 = ch_letter(s.get_char(start + q + 2));
                proof {
                    assert(rest[q + 1] == s@[start + q + 1]);
                    assert(rest[q + 2] == s@[start + q + 2]);
                }
                if l1 && l2 {
                    proof {
                        assert(domain_prefix_at(rest, q as int));
                    }
                    return true;
                }
            }
        }
        // extend the chain, or stop where it breaks
        let chain_ok = if q == 0 {
            ch_alnum(c)
        } else if !ch_alnum(c) && !(c == '.' || c == '-') {
            false
        } else if (c == '.' || c == '-') && q >= 1 {
            let prev = s.get_char(start + q - 1);
            proof {
                assert(rest[q - 1] == s@[start + q - 1]);
            }
            !(prev == '.' || prev == '-')
        } else {
            true
        };
        if chain_ok {
            q += 1;
        } else {
            broke = true;
        }
    }
    proof {
        assert forall|p: int| !domain_prefix_at(rest, p) by {
            if 1 <= p && p + 2 < rest.len() {
                if p < q {
                    // already ruled out while scanning
                } else if broke {
                    if p == q {
                        // ruled out at the break position
                    } else {
                        // the chain is broken strictly inside [0, p)
                        if q == 0 && !is_alnum(rest[0]) {
                            assert(!domain_prefix_at(rest, p));
                        } else if !is_domain_chain_char(rest[q as int]) {
                            if domain_prefix_at(rest, p) {
                                assert(is_domain_chain_char(rest[q as int]));
                            }
                        } else {
                            if domain_prefix_at(rest, p) {
                                assert(!(is_domain_sep(rest[q - 1]) && is_domain_sep(
                                    rest[q as int],
                                )));
                            }
                        }
                    }
                } else {
                    // the scan covered everything: p + 2 < n forces p < q
                    assert(p < q);
                }
            }
        }
    }
    false
}

/// Accept exactly the addresses of the form `local@domain…`: a local part of
/// letters, digits, `_`, `+`, with dots and hyphens inside; then a domain of
/// alphanumeric labels joined by single dots or hyphens, closed by a dot and
/// a top-level label of at least two letters.
pub fn is_valid_email(email: &str) -> (r: bool)
    ensures
        r == email_matches(email@),
{
    let len = email.unicode_len();
    // the local part cannot hold an '@', so only the first '@' can split
    let mut j: usize = 0;
    while j < len && email.get_char(j) != '@'
        invariant
            j <= len,
            len == email@.len(),
            forall|t: int| 0 <= t < j ==> email@[t] != '@',
        decreases len - j,
    {
        j += 1;
    }
    if j == len {
        proof {
            assert(!email_matches(email@));
        }
        return false;
    }
    let local_ok = check_local(email, j);
    let domain_ok = if local_ok {
        check_domain(email, j + 1)
    } else {
        false
    };
    proof {
        if local_ok && domain_ok {
            assert(email@[j as int] == '@');
            assert(email_matches(email@));
        } else {
            assert forall|t: int|
                !(0 <= t < email@.len() && email@[t] == '@' && valid_local(email@.take(t))
                    && domain_matches(email@.skip(t + 1))) by {
                if 0 <= t < email@.len() && email@[t] == '@' {
                    if t < j {
                        assert(email@[t] != '@');
                    } else if t == j {
                        // this split was checked and failed
                    } else {
                        // the local part would hold the first '@'
                        let local = email@.take(t);
                        assert(local[j as int] == '@');
                        if valid_local(local) {
                            if j == 0 {
                                assert(is_local_char(local.first()));
                                assert(false);
                            } else if j == t - 1 {
                                assert(is_local_char(local.last()));
                                assert(false);
                            } else {
                                assert(is_local_mid(local[j as int]));
                                assert(false);
                            }
                        }
                    }
                }
            }
            assert(!email_matches(email@));
        }
    }
    local_ok && domain_ok
}

/// Whitespace, as object-name rewriting treats it: every character with the
/// Unicode white-space property, not only the ASCII ones.
pub open spec fn is_space_ch(c: char) -> bool {
    c == ' ' || c == '\t' || c == '\n' || c == '\r' || c == '\u{b}' || c == '\u{c}' || c
        == '\u{85}' || c == '\u{a0}' || c == '\u{1680}' || ('\u{2000}' <= c && c <= '\u{200a}')
        || c == '\u{2028}' || c == '\u{2029}' || c == '\u{202f}' || c == '\u{205f}' || c
        == '\u{3000}'
}

/// The non-whitespace symbols the authorization backend refuses in object
/// names: colon, hash, question mark, quotes, percent, ampersand.
pub open spec fn is_refused_symbol(c: char) -> bool {
    c == ':' || c == '#' || c == '?' || c == '\'' || c == '"' || c == '%' || c == '&'
}

/// A character that keeps its surrounding spaces meaningful: anything other
/// than letters, digits, whitespace and the refused symbols.
pub open spec fn is_squeeze_char(c: char) -> bool {
    !is_alnum(c) && !is_space_ch(c) && !is_refused_symbol(c)
}

/// Looking left from a space at `i`: is the nearest non-space character a
/// squeeze character?
pub open spec fn squeeze_left(s: Seq<char>, i: int) -> bool {
    exists|j: int|
        0 <= j < i && is_squeeze_char(#[trigger] s[j]) && (forall|t: int|
            j < t < i ==> is_space_ch(#[trigger] s[t]))
}

/// Looking right from a space at `i`: is the nearest non-space character a
/// squeeze character?
pub open spec fn squeeze_right(s: Seq<char>, i: int) -> bool {
    exists|j: int|
        i < j < s.len() && is_squeeze_char(#[trigger] s[j]) && (forall|t: int|
            i < t < j ==> is_space_ch(#[trigger] s[t]))
}

/// Does position `i` survive space-squeezing? A space goes when the nearest
/// non-space on either side is a squeeze character; everything else stays.
pub open spec fn squeeze_keeps(s: Seq<char>, i: int) -> bool {
    !(is_space_ch(s[i]) && (squeeze_left(s, i) || squeeze_right(s, i)))
}

/// The name with the spaces around squeeze characters removed, from
/// position `i` on.
pub open spec fn squeezed_from(s: Seq<char>, i: int) -> Seq<char>
    decreases s.len() - i when 0 <= i <= s.len()
{
    if i >= s.len() {
        Seq::empty()
    } else if squeeze_keeps(s, i) {
        seq![s[i]] + squeezed_from(s, i + 1)
    } else {
        squeezed_from(s, i + 1)
    }
}

/// The name with the spaces around squeeze characters removed.
pub open spec fn squeezed(s: Seq<char>) -> Seq<char> {
    squeezed_from(s, 0)
}

/// Each maximal run of refused characters replaced by one underscore;
/// `in_run` carries whether the previous character was refused.
pub open spec fn underscored_from(s: Seq<char>, i: int, in_run: bool) -> Seq<char>
    decreases s.len() - i when 0 <= i <= s.len()
{
    if i >= s.len() {
        Seq::empty()
    } else if !is_ofga_unsupported_char(s[i]) {
        seq![s[i]] + underscored_from(s, i + 1, false)
    } else if in_run {
        underscored_from(s, i + 1, true)
    } else {
        seq!['_'] + underscored_from(s, i + 1, true)
    }
}

/// The accepted form of an object name: spaces around squeeze characters
/// dropped, then every run of refused characters collapsed to a single
/// underscore.
pub open spec fn ofga_supported_format(s: Seq<char>) -> Seq<char> {
    underscored_from(squeezed(s), 0, false)
}

/// Is `c` whitespace?
fn ch_space(c: char) -> (r: bool)
    ensures
        r == is_space_ch(c),
{
    c == ' ' || c == '\t' || c == '\n' || c == '\r' || c == '\u{b}' || c == '\u{c}' || c
        == '\u{85}' || c == '\u{a0}' || c == '\u{1680}' || ('\u{2000}' <= c && c <= '\u{200a}')
        || c == '\u{2028}' || c == '\u{2029}' || c == '\u{202f}' || c == '\u{205f}' || c
        == '\u{3000}'
}

/// Is `c` a refused symbol?
fn ch_refused_symbol(c: char) -> (r: bool)
    ensures
        r == is_refused_symbol(c),
{
    c == ':' || c == '#' || c == '?' || c == '\'' || c == '"' || c == '%' || c == '&'
}

/// Is `c` a character the authorization backend refuses?
fn ch_unsupported(c: char) -> (r: bool)
    ensures
        r == is_ofga_unsupported_char(c),
{
    ch_refused_symbol(c) || ch_space(c)
}

/// Is `c` a squeeze character?
fn ch_squeeze(c: char) -> (r: bool)
    ensures
        r == is_squeeze_char(c),
{
    !ch_alnum(c) && !ch_space(c) && !ch_refused_symbol(c)
}

/// Does the space at `i` sit next to a squeeze character, through spaces, on
/// the left?
fn scan_squeeze_left(s: &str, i: usize) -> (r: bool)
    requires
        i < s@.len(),
    ensures
        r == squeeze_left(s@, i as int),
{
    let mut j: usize = i;
    while j > 0 && ch_space(s.get_char(j - 1))
        invariant
            j <= i < s@.len(),
            forall|t: int| j <= t < i ==> is_space_ch(#[trigger] s@[t]),
        decreases j,
    {
        j -= 1;
    }
    if j == 0 {
        proof {
            // everything to the left is space: no witness can exist
            assert forall|w: int|
                !(0 <= w < i && is_squeeze_char(#[trigger] s@[w]) && (forall|t: int|
                    w < t < i ==> is_space_ch(#[trigger] s@[t]))) by {
                if 0 <= w < i && is_squeeze_char(s@[w]) {
                    assert(is_space_ch(s@[w]));
                }
            }
        }
        false
    } else {
        let r = ch_squeeze(s.get_char(j - 1));
        proof {
            if r {
                assert(squeeze_left(s@, i as int));
            } else {
                // the nearest non-space is the only candidate witness
                assert forall|w: int|
                    !(0 <= w < i && is_squeeze_char(#[trigger] s@[w]) && (forall|t: int|
                        w < t < i ==> is_space_ch(#[trigger] s@[t]))) by {
                    if 0 <= w < i && is_squeeze_char(s@[w]) && (forall|t: int|
                        w < t < i ==> is_space_ch(#[trigger] s@[t])) {
                        if w < j - 1 {
                            assert(is_space_ch(s@[j - 1]));
                            assert(is_squeeze_char(s@[j - 1]));
                        } else if w > j - 1 {
                            assert(is_space_ch(s@[w]));
                        }
                    }
                }
            }
        }
        r
    }
}

/// Does the space at `i` sit next to a squeeze character, through spaces, on
/// the right?
fn scan_squeeze_right(s: &str, i: usize) -> (r: bool)
    requires
        i < s@.len(),
    ensures
        r == squeeze_right(s@, i as int),
{
    let len = s.unicode_len();
    let mut j: usize = i + 1;
    while j < len && ch_space(s.get_char(j))
        invariant
            i < j <= len,
            len == s@.len(),
            forall|t: int| i < t < j ==> is_space_ch(#[trigger] s@[t]),
        decreases len - j,
    {
        j += 1;
    }
    if j == len {
        proof {
            assert forall|w: int|
                !(i < w < s@.len() && is_squeeze_char(#[trigger] s@[w]) && (forall|t: int|
                    i < t < w ==> is_space_ch(#[trigger] s@[t]))) by {
                if i < w < s@.len() && is_squeeze_char(s@[w]) {
                    assert(is_space_ch(s@[w]));
                }
            }
        }
        false
    } else {
        let r = ch_squeeze(s.get_char(j));
        proof {
            if r {
                assert(squeeze_right(s@, i as int));
            } else {
                assert forall|w: int|
                    !(i < w < s@.len() && is_squeeze_char(#[trigger] s@[w]) && (forall|t: int|
                        i < t < w ==> is_space_ch(#[trigger] s@[t]))) by {
                    if i < w < s@.len() && is_squeeze_char(s@[w]) && (forall|t: int|
                        i < t < w ==> is_space_ch(#[trigger] s@[t])) {
                        if w > j {
                            assert(is_space_ch(s@[j as int]));
                            assert(is_squeeze_char(s@[j as int]));
                        } else if w < j {
                            assert(is_space_ch(s@[w]));
                        }
                    }
                }
            }
        }
        r
    }
}

/// Rewrite a name into the form the authorization backend accepts: drop the
/// spaces that only pad a squeeze character, then collapse every run of
/// refused characters into one underscore.
pub fn into_ofga_supported_format(name: &str) -> (r: String)
    ensures
        r@ == ofga_supported_format(name@),
{
    let len = name.unicode_len();
    // drop the spaces around squeeze characters
    let mut kept = String::new();
    let mut i: usize = 0;
    proof {
        assert(kept@ + squeezed_from(name@, 0) =~= squeezed(name@));
    }
    while i < len
        invariant
            i <= len,
            len == name@.len(),
            squeezed(name@) == kept@ + squeezed_from(name@, i as int),
        decreases len - i,
    {
        let c = name.get_char(i);
        let keep = if !ch_space(c) {
            true
        } else {
            !(scan_squeeze_left(name, i) || scan_squeeze_right(name, i))
        };
        proof {
            assert(keep == squeeze_keeps(name@, i as int));
        }
        if keep {
            let ghost kept_before = kept@;
            let piece = name.substring_char(i, i + 1);
            kept.append(piece);
            proof {
                assert(piece@ =~= seq![name@[i as int]]);
                assert(kept@ + squeezed_from(name@, i + 1) =~= kept_before + (seq![
                    name@[i as int],
                ] + squeezed_from(name@, i + 1)));
            }
        } else {
            proof {
                assert(squeezed_from(name@, i as int) == squeezed_from(name@, i + 1));
            }
        }
        i += 1;
    }
    proof {
        assert(squeezed_from(name@, len as int) =~= Seq::<char>::empty());
        assert(kept@ + Seq::<char>::empty() =~= kept@);
    }
    // collapse runs of refused characters into single underscores
    let ghost mid = kept@;
    let mid_len = kept.as_str().unicode_len();
    let mut out = String::new();
    let mut in_run = false;
    let mut t: usize = 0;
    proof {
        assert(out@ + underscored_from(mid, 0, false) =~= ofga_supported_format(name@));
    }
    while t < mid_len
        invariant
            t <= mid_len,
            mid_len == mid.len(),
            mid == kept@,
            ofga_supported_format(name@) == out@ + underscored_from(mid, t as int, in_run),
        decreases mid_len - t,
    {
        let c = kept.as_str().get_char(t);
        if !ch_unsupported(c) {
            let ghost out_before = out@;
            let piece = kept.as_str().substring_char(t, t + 1);
            proof {
                assert(piece@ =~= seq![mid[t as int]]);
            }
            out.append(piece);
            in_run = false;
            proof {
                assert(out@ + underscored_from(mid, t + 1, false) =~= out_before + (seq![
                    mid[t as int],
                ] + underscored_from(mid, t + 1, false)));
            }
        } else if !in_run {
            let ghost out_before = out@;
            proof {
                reveal_strlit("_");
            }
            out.append("_");
            in_run = true;
            proof {
                assert(out@ + underscored_from(mid, t + 1, true) =~= out_before + (seq![
                    '_',
                ] + underscored_from(mid, t + 1, true)));
            }
        } else {
            proof {
                assert(underscored_from(mid, t as int, true) == underscored_from(mid, t + 1, true));
            }
        }
        t += 1;
    }
    proof {
        assert(underscored_from(mid, mid.len() as int, in_run) =~= Seq::<char>::empty());
        assert(out@ + Seq::<char>::empty() =~= out@);
    }
    out
}

/// The characters the authorization backend refuses in object names: the
/// refused symbols, and any (Unicode) whitespace.
pub open spec fn is_ofga_unsupported_char(c: char) -> bool {
    is_refused_symbol(c) || is_space_ch(c)
}

/// Does the name hold any character the authorization backend refuses?
pub open spec fn ofga_unsupported(s: Seq<char>) -> bool {
    exists|i: int| 0 <= i < s.len() && is_ofga_unsupported_char(#[trigger] s[i])
}

/// Report whether a name needs rewriting before the authorization backend
/// will accept it.
pub fn is_ofga_unsupported(name: &str) -> (r: bool)
    ensures
        r == ofga_unsupported(name@),
{
    let len = name.unicode_len();
    let mut i: usize = 0;
    while i < len
        invariant
            i <= len,
            len == name@.len(),
            forall|t: int| 0 <= t < i ==> !is_ofga_unsupported_char(#[trigger] name@[t]),
        decreases len - i,
    {
        let c = name.get_char(i);
        if ch_unsupported(c) {
            return true;
        }
        i += 1;
    }
    false
}

} // verus!
