use rfc2047::rfc2047_encode;

#[test]
fn just_ascii() {
    assert_eq!("foo \n bar", rfc2047_encode("foo \n bar"));
}

#[test]
fn just_whitespace() {
    assert_eq!("   ", rfc2047_encode("   "));
}

#[test]
fn single_char() {
    assert_eq!("=?utf-8?q?=C3=A4?=", rfc2047_encode("ä"));
}

#[test]
fn single_char_multi() {
    assert_eq!("=?utf-8?q?=F0=9F=9A=80?=", rfc2047_encode("🚀"));
}

#[test]
fn encoded_word() {
    assert_eq!("=?utf-8?q?foo=C3=A1bar?=", rfc2047_encode("fooábar"));
}

#[test]
fn encoded_at_start() {
    assert_eq!("=?utf-8?q?=C3=A4?=  bar", rfc2047_encode("ä  bar"));
}

#[test]
fn encoded_at_end() {
    assert_eq!("Foo  =?utf-8?q?=C3=A4?=", rfc2047_encode("Foo  ä"));
}

#[test]
fn encoded_in_middle() {
    assert_eq!(
        "Foo  =?utf-8?q?=C3=A4?=  bar",
        rfc2047_encode("Foo  ä  bar")
    );
}

#[test]
fn encoded_adjacent_in_middle() {
    assert_eq!(
        "Foo  =?utf-8?q?=C3=A4?= =?utf-8?q?_=C3=A4?=  bar",
        rfc2047_encode("Foo  ä ä  bar")
    );
}

#[test]
fn encoded_adjacent_with_whitespace() {
    assert_eq!(
        "=?utf-8?q?=C3=A4?= =?utf-8?q?__=C3=BC?=",
        rfc2047_encode("ä  ü")
    );
}

#[test]
fn encoded_trailing_whitespace() {
    assert_eq!("=?utf-8?q?=C3=A4?=   ", rfc2047_encode("ä   "));
}

#[test]
fn encoded_leading_whitespace() {
    assert_eq!("   =?utf-8?q?=C3=A4?=", rfc2047_encode("   ä"));
}

#[test]
fn encoded_surrounding_whitespace() {
    assert_eq!("   =?utf-8?q?=C3=A4?=   ", rfc2047_encode("   ä   "));
}

#[test]
fn encoded_long() {
    assert_eq!(
        "=?utf-8?q?=C3=A4012345678012345678012345678012345678012345678?= =?utf-8?q?0123456789999990123456789?=",
        rfc2047_encode("ä0123456780123456780123456780123456780123456780123456789999990123456789")
    );
}
