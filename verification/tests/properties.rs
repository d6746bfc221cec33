use rfc2047::ascii::{char_is_ascii, char_is_whitespace};
use rfc2047::encode::{skip_token, skip_whitespace};
use rfc2047::escape::{encode_utf8_char, hex_digit_char, push_escaped_byte, push_escaped_char};
use rfc2047::text::{all_ascii, collect_chars, push_chars};
use rfc2047::word::{
    push_encoded_word, rfc2047_encode_word, LEN_ENCODED_WORD_BUFFER, LEN_ENCODED_WORD_PREFIX,
    LEN_ENCODED_WORD_SUFFIX, MAX_LEN_ENCODED_DATA, MAX_LEN_ENCODED_WORD,
};
use rfc2047::rfc2047_encode;
use std::borrow::Cow;

const PREFIX: &str = "=?utf-8?q?";
const SUFFIX: &str = "?=";

fn is_encoded_word(token: &str) -> bool {
    token.len() >= PREFIX.len() + SUFFIX.len()
        && token.starts_with(PREFIX)
        && token.ends_with(SUFFIX)
}

fn unescape(body: &str) -> String {
    let raw = body.as_bytes();
    let mut bytes = Vec::new();
    let mut i = 0;
    while i < raw.len() {
        if raw[i] == b'=' && i + 3 <= raw.len() {
            let hex = std::str::from_utf8(&raw[i + 1..i + 3]).unwrap();
            bytes.push(u8::from_str_radix(hex, 16).unwrap());
            i += 3;
        } else if raw[i] == b'_' {
            bytes.push(b' ');
            i += 1;
        } else {
            bytes.push(raw[i]);
            i += 1;
        }
    }
    String::from_utf8(bytes).unwrap()
}

/// Reads encoded text back: encoded words are unescaped, whitespace between
/// two of them is dropped, everything else is kept.
fn decode(text: &str) -> String {
    let mut out = String::new();
    let mut rest = text;
    let mut previous_was_encoded = false;
    while !rest.is_empty() {
        let begin = rest
            .find(|c: char| !c.is_ascii_whitespace())
            .unwrap_or(rest.len());
        let end = begin
            + rest[begin..]
                .find(|c: char| c.is_ascii_whitespace())
                .unwrap_or(rest.len() - begin);
        let token = &rest[begin..end];
        if is_encoded_word(token) {
            if !previous_was_encoded {
                out.push_str(&rest[..begin]);
            }
            out.push_str(&unescape(&token[PREFIX.len()..token.len() - SUFFIX.len()]));
            previous_was_encoded = true;
        } else {
            out.push_str(&rest[..end]);
            previous_was_encoded = false;
        }
        rest = &rest[end..];
    }
    out
}

fn assert_round_trip(input: &str) {
    assert_eq!(input, decode(&rfc2047_encode(input)), "input {:?}", input);
}

fn assert_segments_bounded(output: &str) {
    for token in output.split(|c: char| c.is_ascii_whitespace()) {
        if is_encoded_word(token) {
            assert!(token.chars().count() <= 75, "segment {:?}", token);
        }
    }
}

#[test]
fn empty_input() {
    assert_eq!("", rfc2047_encode(""));
}

#[test]
fn ascii_input_is_borrowed() {
    let input = "a=b _c\t=?utf-8?q?x?=";
    match rfc2047_encode(input) {
        Cow::Borrowed(s) => assert_eq!(input, s),
        Cow::Owned(_) => panic!("pure ASCII input was copied"),
    }
}

#[test]
fn non_ascii_input_is_owned() {
    assert!(matches!(rfc2047_encode("ä"), Cow::Owned(_)));
}

#[test]
fn ascii_unchanged() {
    for input in [
        "",
        " ",
        "a",
        "a b",
        "\t\n\r\u{c} x",
        "=_?",
        "key=value under_score",
        "\u{7f}\u{0}\u{b}",
    ] {
        assert_eq!(input, rfc2047_encode(input));
    }
}

#[test]
fn vertical_tab_is_no_whitespace() {
    assert_eq!(
        "Foo =?utf-8?q?a\u{b}=C3=A4?=",
        rfc2047_encode("Foo a\u{b}ä")
    );
}

#[test]
fn all_whitespace_kinds_delimit_tokens() {
    assert_eq!(
        "a\t=?utf-8?q?=C3=A4?=\nb\r=?utf-8?q?=C3=A4?=\u{c}c",
        rfc2047_encode("a\tä\nb\rä\u{c}c")
    );
}

#[test]
fn placeholder_and_trigger_are_escaped() {
    assert_eq!("=?utf-8?q?a=5Fb=3Dc=C3=A4?=", rfc2047_encode("a_b=cä"));
}

#[test]
fn ascii_token_with_placeholder_and_trigger_passes() {
    assert_eq!("a_b=c =?utf-8?q?=C3=A4?=", rfc2047_encode("a_b=c ä"));
}

#[test]
fn question_mark_is_verbatim() {
    assert_eq!("=?utf-8?q?=C3=A4?=3Dx?=", rfc2047_encode("ä?=x"));
}

#[test]
fn two_byte_character() {
    assert_eq!("=?utf-8?q?=C3=BF?=", rfc2047_encode("ÿ"));
    assert_eq!("=?utf-8?q?=C2=80?=", rfc2047_encode("\u{80}"));
    assert_eq!("=?utf-8?q?=DF=BF?=", rfc2047_encode("\u{7ff}"));
}

#[test]
fn three_byte_character() {
    assert_eq!("=?utf-8?q?=E2=82=AC?=", rfc2047_encode("€"));
    assert_eq!("=?utf-8?q?=E0=A0=80?=", rfc2047_encode("\u{800}"));
    assert_eq!("=?utf-8?q?=EF=BF=BF?=", rfc2047_encode("\u{ffff}"));
    assert_eq!("=?utf-8?q?=ED=9F=BF?=", rfc2047_encode("\u{d7ff}"));
    assert_eq!("=?utf-8?q?=EE=80=80?=", rfc2047_encode("\u{e000}"));
}

#[test]
fn four_byte_character() {
    assert_eq!("=?utf-8?q?=F0=90=80=80?=", rfc2047_encode("\u{10000}"));
    assert_eq!("=?utf-8?q?=F4=8F=BF=BF?=", rfc2047_encode("\u{10ffff}"));
}

#[test]
fn separated_encoded_tokens_keep_their_whitespace() {
    assert_eq!(
        "x =?utf-8?q?=C3=A4?= y =?utf-8?q?=C3=A4?=",
        rfc2047_encode("x ä y ä")
    );
}

#[test]
fn adjacent_encoded_tokens_are_joined_by_one_space() {
    assert_eq!(
        "=?utf-8?q?=C3=A4?= =?utf-8?q?____=C3=BC?=",
        rfc2047_encode("ä    ü")
    );
    assert_eq!(
        "=?utf-8?q?=C3=A4?= =?utf-8?q?_=C3=BC?= =?utf-8?q?__=C3=B6?=",
        rfc2047_encode("ä ü  ö")
    );
}

#[test]
fn other_whitespace_goes_into_the_payload_as_it_is() {
    assert_eq!(
        "=?utf-8?q?=C3=A4?= =?utf-8?q?\t=C3=A4?=",
        rfc2047_encode("ä\tä")
    );
    assert_eq!(
        "=?utf-8?q?=C3=A4?= =?utf-8?q?_\n_=C3=BC?=",
        rfc2047_encode("ä \n ü")
    );
}

#[test]
fn segment_closes_when_body_reaches_limit() {
    let fits = format!("ä{}", "a".repeat(45));
    assert_eq!(
        format!("=?utf-8?q?=C3=A4{}?=", "a".repeat(45)),
        rfc2047_encode(&fits)
    );
    let one_more = format!("ä{}", "a".repeat(46));
    assert_eq!(
        format!("=?utf-8?q?=C3=A4{}?= =?utf-8?q?a?=", "a".repeat(45)),
        rfc2047_encode(&one_more)
    );
}

#[test]
fn last_character_may_use_the_reserve() {
    let input = format!("{}🚀b", "a".repeat(50));
    let output = rfc2047_encode(&input);
    assert_eq!(
        format!("=?utf-8?q?{}=F0=9F=9A=80?= =?utf-8?q?b?=", "a".repeat(50)),
        output
    );
    assert_eq!(74, output.split(' ').next().unwrap().len());
    let input = format!("{}🚀", "a".repeat(51));
    assert_eq!(
        format!("=?utf-8?q?{}?= =?utf-8?q?=F0=9F=9A=80?=", "a".repeat(51)),
        rfc2047_encode(&input)
    );
}

#[test]
fn seventy_four_characters_split_in_two() {
    let input = format!("ä{}", "x".repeat(73));
    assert_eq!(74, input.chars().count());
    let output = rfc2047_encode(&input);
    let segments: Vec<&str> = output.split(' ').collect();
    assert_eq!(2, segments.len());
    assert_eq!(format!("=?utf-8?q?=C3=A4{}?=", "x".repeat(45)), segments[0]);
    assert_eq!(format!("=?utf-8?q?{}?=", "x".repeat(28)), segments[1]);
    assert!(segments.iter().all(|s| s.len() <= 75));
}

#[test]
fn long_runs_split_between_characters() {
    let rockets = "🚀".repeat(12);
    let five = "=F0=9F=9A=80".repeat(5);
    let two = "=F0=9F=9A=80".repeat(2);
    assert_eq!(
        format!("=?utf-8?q?{five}?= =?utf-8?q?{five}?= =?utf-8?q?{two}?="),
        rfc2047_encode(&rockets)
    );
    let umlauts = "ä".repeat(20);
    let nine = "=C3=A4".repeat(9);
    let rest = "=C3=A4".repeat(2);
    assert_eq!(
        format!("=?utf-8?q?{nine}?= =?utf-8?q?{nine}?= =?utf-8?q?{rest}?="),
        rfc2047_encode(&umlauts)
    );
}

#[test]
fn every_segment_decodes_on_its_own() {
    for input in ["🚀".repeat(40), "a€".repeat(33), format!("{}ä", "é".repeat(17))] {
        let output = rfc2047_encode(&input);
        let mut decoded = String::new();
        for segment in output.split(' ') {
            assert!(is_encoded_word(segment));
            decoded.push_str(&unescape(&segment[PREFIX.len()..segment.len() - SUFFIX.len()]));
        }
        assert_eq!(input, decoded);
    }
}

#[test]
fn segments_stay_within_the_limit() {
    let mut inputs = vec![
        "ä".repeat(200),
        "🚀".repeat(200),
        "€".repeat(200),
        format!("{}ä", "a".repeat(500)),
        format!("ä{}", "_=".repeat(100)),
    ];
    for n in 40..64 {
        inputs.push(format!("{}🚀{}", "a".repeat(n), "b".repeat(n)));
        inputs.push(format!("{}€ {}ä", "a".repeat(n), " ".repeat(n)));
    }
    for input in inputs {
        assert_segments_bounded(&rfc2047_encode(&input));
    }
}

#[test]
fn output_is_ascii() {
    for input in [
        "ä",
        "Foo  ä ä  bar",
        "\u{80}\u{7ff}\u{800}\u{ffff}\u{10000}\u{10ffff}",
        "a\u{a0}b \u{2003} c",
        "ä\tä\u{b}ü",
    ] {
        assert!(rfc2047_encode(input).is_ascii(), "input {:?}", input);
        assert!(rfc2047_encode_word(input).is_ascii(), "input {:?}", input);
    }
    assert!(rfc2047_encode(&"🚀€ä".repeat(50)).is_ascii());
}

#[test]
fn decoding_gives_the_input_back() {
    for input in [
        "",
        "   ",
        "foo \n bar",
        "ä",
        "🚀",
        "Foo  ä  bar",
        "Foo  ä ä  bar",
        "ä  ü",
        "   ä   ",
        "a_b=cä x=y _ ä",
        "ä?=x",
        "\tä\t\nb\r\n",
        "ä      ü ö",
    ] {
        assert_round_trip(input);
    }
    assert_round_trip(&"ä".repeat(100));
    assert_round_trip(&format!("{} {}", "🚀".repeat(30), "€".repeat(30)));
    assert_round_trip(&format!("{}ä{}ü", " ".repeat(70), " ".repeat(70)));
}

#[test]
fn inputs_that_do_not_read_back() {
    for input in ["=?utf-8?q?abc?= ä", "=?utf-8?q?abc?=", "ä\tä", "ä \n ü"] {
        assert_ne!(input, decode(&rfc2047_encode(input)), "input {:?}", input);
    }
}

#[test]
fn ascii_token_that_reads_as_encoded_word_passes_unchanged() {
    assert_eq!(
        "=?utf-8?q?abc?= =?utf-8?q?=C3=A4?=",
        rfc2047_encode("=?utf-8?q?abc?= ä")
    );
}

#[test]
fn word_encoder_single_segment() {
    assert_eq!("=?utf-8?q?=C3=A4?=", rfc2047_encode_word("ä"));
    assert_eq!("=?utf-8?q?_=C3=A4?=", rfc2047_encode_word(" ä"));
    assert_eq!("=?utf-8?q?abc?=", rfc2047_encode_word("abc"));
}

#[test]
fn word_encoder_empty_payload() {
    assert_eq!("=?utf-8?q??=", rfc2047_encode_word(""));
}

#[test]
fn word_encoder_full_body_without_follower() {
    let payload = "a".repeat(51);
    assert_eq!(
        format!("=?utf-8?q?{}?=", payload),
        rfc2047_encode_word(&payload)
    );
    let payload = "a".repeat(52);
    assert_eq!(
        format!("=?utf-8?q?{}?= =?utf-8?q?a?=", "a".repeat(51)),
        rfc2047_encode_word(&payload)
    );
}

#[test]
fn word_encoder_appends() {
    let text: Vec<char> = "xyäz".chars().collect();
    let mut out = String::from("> ");
    push_encoded_word(&mut out, &text, 1, 3);
    assert_eq!("> =?utf-8?q?y=C3=A4?=", out);
}

#[test]
fn limits() {
    assert_eq!(75, MAX_LEN_ENCODED_WORD);
    assert_eq!(10, LEN_ENCODED_WORD_PREFIX);
    assert_eq!(2, LEN_ENCODED_WORD_SUFFIX);
    assert_eq!(12, LEN_ENCODED_WORD_BUFFER);
    assert_eq!(51, MAX_LEN_ENCODED_DATA);
}

#[test]
fn utf8_bytes_agree_with_std() {
    let mut buf = [0u8; 4];
    for c in [
        '\0', 'a', '\u{7f}', '\u{80}', 'ä', '\u{7ff}', '\u{800}', '€', '\u{d7ff}', '\u{e000}',
        '\u{ffff}', '\u{10000}', '🚀', '\u{10ffff}',
    ] {
        assert_eq!(c.encode_utf8(&mut buf).as_bytes(), &encode_utf8_char(c)[..]);
    }
}

#[test]
fn hex_digits() {
    let digits: String = (0u8..16).map(hex_digit_char).collect();
    assert_eq!("0123456789ABCDEF", digits);
}

#[test]
fn escaped_bytes() {
    let mut out = String::from("x");
    push_escaped_byte(&mut out, 0x00);
    push_escaped_byte(&mut out, 0x3d);
    push_escaped_byte(&mut out, 0xaf);
    push_escaped_byte(&mut out, 0xff);
    assert_eq!("x=00=3D=AF=FF", out);
}

#[test]
fn escaped_characters() {
    let mut out = String::new();
    assert_eq!(1, push_escaped_char(&mut out, ' '));
    assert_eq!(1, push_escaped_char(&mut out, 'a'));
    assert_eq!(1, push_escaped_char(&mut out, '?'));
    assert_eq!(1, push_escaped_char(&mut out, '\t'));
    assert_eq!(3, push_escaped_char(&mut out, '_'));
    assert_eq!(3, push_escaped_char(&mut out, '='));
    assert_eq!(6, push_escaped_char(&mut out, 'ä'));
    assert_eq!(9, push_escaped_char(&mut out, '€'));
    assert_eq!(12, push_escaped_char(&mut out, '🚀'));
    assert_eq!("_a?\t=5F=3D=C3=A4=E2=82=AC=F0=9F=9A=80", out);
}

#[test]
fn character_classes() {
    for c in [' ', '\t', '\n', '\u{c}', '\r'] {
        assert!(char_is_whitespace(c));
    }
    for c in ['\u{b}', 'a', '\0', '\u{a0}', '\u{2003}', '\u{85}'] {
        assert!(!char_is_whitespace(c));
    }
    assert!(char_is_ascii('\0') && char_is_ascii('\u{7f}') && char_is_ascii('='));
    assert!(!char_is_ascii('\u{80}') && !char_is_ascii('ä') && !char_is_ascii('🚀'));
}

#[test]
fn scanning() {
    let text: Vec<char> = " \t ab ä\n".chars().collect();
    assert_eq!(3, skip_whitespace(&text, 0));
    assert_eq!(3, skip_whitespace(&text, 3));
    assert_eq!(5, skip_token(&text, 3));
    assert_eq!(5, skip_token(&text, 5));
    assert_eq!(6, skip_whitespace(&text, 5));
    assert_eq!(7, skip_token(&text, 6));
    assert_eq!(8, skip_whitespace(&text, 7));
    assert_eq!(8, skip_token(&text, 8));
    assert!(all_ascii(&text, 0, 6));
    assert!(!all_ascii(&text, 0, 7));
    assert!(all_ascii(&text, 7, 8));
    assert!(all_ascii(&text, 6, 6));
}

#[test]
fn character_vectors() {
    assert_eq!(vec!['a', 'ä', '🚀'], collect_chars("aä🚀"));
    assert!(collect_chars("").is_empty());
    let mut out = String::from("ab");
    push_chars(&mut out, &vec!['x', 'ä', 'y', 'z'], 1, 3);
    assert_eq!("abäy", out);
}
