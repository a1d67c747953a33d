use beanstalk::codec::{num_from_bytes, string_from_bytes, valid_name_char};
use beanstalk::error::Error;
use beanstalk::text::{camel_case, name_not_after, parse_digits, push_decimal, str_eq};

#[test]
fn verbs_come_from_capitalised_names() {
    assert_eq!(camel_case("Put"), "put");
    assert_eq!(camel_case("ReserveWithTimeout"), "reserve-with-timeout");
    assert_eq!(camel_case("ListTubesWatched"), "list-tubes-watched");
    assert_eq!(camel_case(""), "");
    assert_eq!(camel_case("x"), "");
    assert_eq!(camel_case("éA"), "-a");
}

#[test]
fn name_chars() {
    for c in b"azAZ09-+/;.$_()" {
        assert!(valid_name_char(*c));
    }
    for c in b" ^\r\n\t!#%&*,:<=>?@[]{}|~\x00\x7f\x80\xff" {
        assert!(!valid_name_char(*c));
    }
}

#[test]
fn numbers_from_bytes() {
    assert_eq!(num_from_bytes(b"0"), Ok(0));
    assert_eq!(num_from_bytes(b"007"), Ok(7));
    assert_eq!(num_from_bytes(b"+7"), Ok(7));
    assert_eq!(num_from_bytes(b"4294967295"), Ok(4294967295));
    assert_eq!(num_from_bytes(b"4294967296"), Err(Error::BadFormat));
    assert_eq!(num_from_bytes(b"99999999999999999999999"), Err(Error::BadFormat));
    assert_eq!(num_from_bytes(b""), Err(Error::BadFormat));
    assert_eq!(num_from_bytes(b"+"), Err(Error::BadFormat));
    assert_eq!(num_from_bytes(b"-1"), Err(Error::BadFormat));
    assert_eq!(num_from_bytes(b"1a"), Err(Error::BadFormat));
    assert_eq!(num_from_bytes("1é".as_bytes()), Err(Error::BadFormat));
    assert_eq!(num_from_bytes(b"1\xff"), Err(Error::InternalError));
}

#[test]
fn strings_from_bytes() {
    assert_eq!(string_from_bytes(b"abc"), Ok("abc".to_string()));
    assert_eq!(string_from_bytes("é".as_bytes()), Ok("é".to_string()));
    assert_eq!(string_from_bytes(b"\xff"), Err(Error::InternalError));
}

#[test]
fn digits() {
    assert_eq!(parse_digits(b"12"), Some(12));
    assert_eq!(parse_digits(b""), None);
    assert_eq!(parse_digits(b"+1"), None);
    let mut out = vec![b'x'];
    push_decimal(0, &mut out);
    push_decimal(4294967295, &mut out);
    push_decimal(18446744073709551615, &mut out);
    assert_eq!(out, b"x0429496729518446744073709551615");
}

#[test]
fn name_order_is_by_bytes() {
    assert!(str_eq("abc", "abc"));
    assert!(!str_eq("abc", "abd"));
    assert!(!str_eq("abc", "ab"));
    assert!(name_not_after("a", "a"));
    assert!(name_not_after("a", "b"));
    assert!(!name_not_after("b", "a"));
    assert!(name_not_after("a", "ab"));
    assert!(!name_not_after("ab", "a"));
    assert!(name_not_after("", "a"));
    assert!(name_not_after("Z", "a"));
}

#[test]
fn error_words() {
    assert_eq!(Error::BadFormat.to_string(), "BAD_FORMAT");
    assert_eq!(Error::ExpectedCrlf.to_string(), "EXPECTED_CRLF");
    assert_eq!(Error::JobTooBig.to_string(), "JOB_TOO_BIG");
    assert_eq!(Error::NotFound.to_string(), "NOT_FOUND");
    assert_eq!(Error::NotIgnored.to_string(), "NOT_IGNORED");
    assert_eq!(Error::DeadlineSoon.to_string(), "DEADLINE_SOON");
    assert_eq!(Error::TimedOut.to_string(), "TIMED_OUT");
    assert_eq!(Error::Draining.to_string(), "DRAINING");
    assert_eq!(Error::InternalError.to_string(), "INTERNAL_ERROR");
}
