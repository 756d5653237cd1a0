use coordkv::auth::{
    get_role, into_ofga_supported_format, is_ofga_unsupported, is_valid_email, UserOrgRole,
    UserRole,
};
use coordkv::errors::Error;
use coordkv::keys::{last_segment_str, starts_with_str, str_compare, trim_end_slashes, KeyCmp};
use coordkv::num::{i64_to_dec, parse_i64, parse_i64_or_zero, u64_to_dec};
use coordkv::org::{encode_offset, mk_key, try_decode_offset};
use coordkv::sql::{parse_timestamp, trim_quotes, OrderBy, SqlOperator};

#[test]
fn test_valid_emails() {
    assert!(is_valid_email("user@example.com"));
    assert!(is_valid_email("john.doe+123@mail.co.in"));
    assert!(is_valid_email("a_b-c.d+e@domain.org"));
    assert!(!is_valid_email("no-at-symbol.com"));
    assert!(!is_valid_email("@missing-user.com"));
    assert!(!is_valid_email("user@.com"));
    assert!(!is_valid_email("user@com"));
    assert!(!is_valid_email("user@domain..com"));
}

#[test]
fn test_is_ofga_unsupported() {
    assert!(is_ofga_unsupported("abc:123"));
    assert!(is_ofga_unsupported("name with space"));
    assert!(is_ofga_unsupported("foo&bar"));
    assert!(!is_ofga_unsupported("valid_name"));
    assert!(!is_ofga_unsupported("name_with_underscores"));
}

#[test]
fn test_into_ofga_supported_format() {
    assert_eq!(into_ofga_supported_format("foo:bar"), "foo_bar");
    assert_eq!(into_ofga_supported_format("foo bar"), "foo_bar");
    assert_eq!(into_ofga_supported_format("foo#bar"), "foo_bar");
    assert_eq!(into_ofga_supported_format("foo : bar"), "foo_bar");
    assert_eq!(into_ofga_supported_format(" a  & b "), "_a_b_");
    assert_eq!(into_ofga_supported_format("a   b"), "a_b");
    assert_eq!(into_ofga_supported_format("a:b#c?d e"), "a_b_c_d_e");
    assert_eq!(into_ofga_supported_format("foo & bar % baz"), "foo_bar_baz");
}

#[test]
fn ofga_checks_cover_unicode_whitespace() {
    // any white-space character makes a name unsupported, not only ASCII
    assert!(is_ofga_unsupported("a\u{a0}b"));
    assert!(is_ofga_unsupported("a\u{2009}b"));
    assert!(is_ofga_unsupported("a\u{3000}b"));
    // and the rewriter collapses it like any other refused run
    assert_eq!(into_ofga_supported_format("a\u{a0}b"), "a_b");
    assert_eq!(into_ofga_supported_format("a \u{a0}\u{3000} b"), "a_b");
    // white space padding a squeeze character is dropped, Unicode included
    assert_eq!(into_ofga_supported_format("foo \u{a0}- bar"), "foo-bar");
}

#[test]
fn ofga_format_squeezes_spaces_around_special_characters() {
    // spaces padding a character outside the refused set are dropped, not
    // replaced by an underscore
    assert_eq!(into_ofga_supported_format("foo - bar"), "foo-bar");
    assert_eq!(into_ofga_supported_format("a  +  b"), "a+b");
    // but spaces between ordinary words still collapse to an underscore
    assert_eq!(into_ofga_supported_format("plain name"), "plain_name");
    assert_eq!(into_ofga_supported_format(""), "");
}

#[test]
fn email_edge_cases() {
    // a single-character local part is enough
    assert!(is_valid_email("a@bc.de"));
    // anything may follow the top-level label: the match is a prefix
    assert!(is_valid_email("user@example.com/extra"));
    assert!(is_valid_email("user@example.communication"));
    // the local part may not start or end with a dot or hyphen
    assert!(!is_valid_email(".user@example.com"));
    assert!(!is_valid_email("user.@example.com"));
    // the top-level label needs at least two letters
    assert!(!is_valid_email("user@example.c"));
    assert!(!is_valid_email("user@example.c1"));
    // empty input
    assert!(!is_valid_email(""));
    assert!(!is_valid_email("@"));
    // hyphenated domains are labels too
    assert!(is_valid_email("user@my-host.org"));
    assert!(!is_valid_email("user@-host.org"));
}

#[test]
fn role_resolution_defaults_to_admin() {
    let membership = UserOrgRole {
        base_role: UserRole::Root,
    };
    assert_eq!(get_role(&membership), UserRole::Admin);
}

#[test]
fn decimal_rendering_and_parsing_round_trip() {
    assert_eq!(u64_to_dec(0), "0");
    assert_eq!(u64_to_dec(907), "907");
    assert_eq!(i64_to_dec(0), "0");
    assert_eq!(i64_to_dec(-123), "-123");
    assert_eq!(i64_to_dec(i64::MAX), "9223372036854775807");
    assert_eq!(i64_to_dec(i64::MIN), "-9223372036854775808");

    assert_eq!(parse_i64("123"), Some(123));
    assert_eq!(parse_i64("+4"), Some(4));
    assert_eq!(parse_i64("-0"), Some(0));
    assert_eq!(parse_i64("007"), Some(7));
    assert_eq!(parse_i64("9223372036854775807"), Some(i64::MAX));
    assert_eq!(parse_i64("-9223372036854775808"), Some(i64::MIN));
    // out of range, malformed, empty, or a bare sign
    assert_eq!(parse_i64("9223372036854775808"), None);
    assert_eq!(parse_i64("123456789012345678901234567890"), None);
    assert_eq!(parse_i64("12a"), None);
    assert_eq!(parse_i64(""), None);
    assert_eq!(parse_i64("-"), None);
    assert_eq!(parse_i64(" 5"), None);

    assert_eq!(parse_i64_or_zero("abc"), 0);
    assert_eq!(parse_i64_or_zero("-17"), -17);
}

#[test]
fn compaction_offset_keys_and_values() {
    assert_eq!(mk_key("org1", "files"), "/compact/organization/org1/files");

    assert_eq!(encode_offset(5, Some("node1")), "5;node1");
    assert_eq!(encode_offset(7, None), "7");

    assert_eq!(try_decode_offset("5;node1"), Some((5, "node1".to_string())));
    assert_eq!(try_decode_offset("42"), Some((42, String::new())));
    assert_eq!(try_decode_offset(""), Some((0, String::new())));
    // only the segment up to the next separator names the node
    assert_eq!(try_decode_offset("1;n;z"), Some((1, "n".to_string())));
    assert_eq!(try_decode_offset("x;n"), None);

    // a full round trip
    let stored = encode_offset(1234, Some("ingest-2"));
    assert_eq!(
        try_decode_offset(&stored),
        Some((1234, "ingest-2".to_string()))
    );
}

#[test]
fn quote_trimming_strips_one_layer_of_each() {
    assert_eq!(trim_quotes("\"abc\""), "abc");
    assert_eq!(trim_quotes("'abc'"), "abc");
    assert_eq!(trim_quotes("\"'abc'\""), "abc");
    assert_eq!(trim_quotes("abc"), "abc");
    assert_eq!(trim_quotes("\""), "\"");
    assert_eq!(trim_quotes("''"), "");
    assert_eq!(trim_quotes("'abc\""), "'abc\"");
}

#[test]
fn timestamps_normalize_by_magnitude() {
    assert_eq!(parse_timestamp(0).unwrap(), None);
    assert_eq!(parse_timestamp(1666093521151350).unwrap(), Some(1666093521151350));
    assert_eq!(parse_timestamp(1666093521151).unwrap(), Some(1666093521151000));
    assert_eq!(parse_timestamp(1666093521).unwrap(), Some(1666093521000000));
    assert_eq!(
        parse_timestamp(1666093521151350000).unwrap(),
        Some(1666093521151350)
    );
    assert!(matches!(parse_timestamp(5), Err(Error::Malformed { .. })));
    assert!(matches!(parse_timestamp(-3), Err(Error::Malformed { .. })));
}

#[test]
fn query_metadata_enums_carry_their_variants() {
    assert_eq!(OrderBy::default(), OrderBy::Desc);
    assert_ne!(OrderBy::Asc, OrderBy::Desc);
    assert_eq!(SqlOperator::And, SqlOperator::And);
    assert_ne!(SqlOperator::Eq, SqlOperator::Neq);
}

#[test]
fn key_string_utilities() {
    assert_eq!(trim_end_slashes("/zinc/observe/"), "/zinc/observe");
    assert_eq!(trim_end_slashes("/a///"), "/a");
    assert_eq!(trim_end_slashes("abc"), "abc");
    assert_eq!(trim_end_slashes("///"), "");

    assert_eq!(last_segment_str("/a/b/123"), "123");
    assert_eq!(last_segment_str("abc"), "abc");
    assert_eq!(last_segment_str("/a/"), "");

    assert!(starts_with_str("/cfg/a", "/cfg/"));
    assert!(!starts_with_str("/cfg", "/cfg/"));

    assert_eq!(str_compare("a", "b"), KeyCmp::Less);
    assert_eq!(str_compare("b", "a"), KeyCmp::Greater);
    assert_eq!(str_compare("ab", "ab"), KeyCmp::Equal);
    assert_eq!(str_compare("ab", "abc"), KeyCmp::Less);
    assert_eq!(str_compare("/cfg/a", "/cfg/b"), KeyCmp::Less);
}
