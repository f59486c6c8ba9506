use helicopter_collective::status::format_status_json;

fn format(blink_ms: u32, uptime_secs: u64, friendly_name: &str, unique_name: &str) -> String {
    let mut buf = [0u8; 512];
    let n = format_status_json(&mut buf, blink_ms, uptime_secs, friendly_name, unique_name)
        .expect("buffer should be large enough");
    String::from_utf8(buf[..n].to_vec()).unwrap()
}

#[test]
fn formats_basic_status() {
    let json = format(500, 42, "helicopter", "helicopter-a1b2c3");
    assert_eq!(
        json,
        r#"{"blink_ms":500,"uptime_secs":42,"friendly_name":"helicopter","unique_name":"helicopter-a1b2c3"}"#
    );
}

#[test]
fn formats_zero_values() {
    let json = format(0, 0, "", "");
    assert_eq!(
        json,
        r#"{"blink_ms":0,"uptime_secs":0,"friendly_name":"","unique_name":""}"#
    );
}

#[test]
fn escapes_double_quote_in_friendly_name() {
    let json = format(500, 1, r#"my"device"#, "unique");
    assert_eq!(
        json,
        r#"{"blink_ms":500,"uptime_secs":1,"friendly_name":"my\"device","unique_name":"unique"}"#
    );
}

#[test]
fn escapes_backslash_in_friendly_name() {
    let json = format(500, 1, r"back\slash", "unique");
    assert_eq!(
        json,
        r#"{"blink_ms":500,"uptime_secs":1,"friendly_name":"back\\slash","unique_name":"unique"}"#
    );
}

#[test]
fn escapes_control_characters() {
    let json = format(500, 1, "a\tb\nc", "unique");
    assert_eq!(
        json,
        "{\"blink_ms\":500,\"uptime_secs\":1,\"friendly_name\":\"a\\u0009b\\u000ac\",\"unique_name\":\"unique\"}"
    );
}

#[test]
fn escapes_quote_in_unique_name() {
    let json = format(500, 1, "friendly", r#"uni"que"#);
    assert_eq!(
        json,
        r#"{"blink_ms":500,"uptime_secs":1,"friendly_name":"friendly","unique_name":"uni\"que"}"#
    );
}

#[test]
fn passes_through_non_ascii_unescaped() {
    let json = format(500, 1, "héli", "unique");
    assert_eq!(
        json,
        r#"{"blink_ms":500,"uptime_secs":1,"friendly_name":"héli","unique_name":"unique"}"#
    );
}

#[test]
fn returns_none_when_buffer_too_small() {
    let mut buf = [0u8; 10];
    assert!(format_status_json(&mut buf, 500, 1, "helicopter", "unique").is_none());
}

#[test]
fn returns_none_without_partial_write_beyond_buffer() {
    // A buffer just one byte short of fitting should still fail cleanly.
    let full_len = format_status_json(&mut [0u8; 512], 500, 1, "helicopter", "unique").unwrap();
    let mut buf = vec![0u8; full_len - 1];
    assert!(format_status_json(&mut buf, 500, 1, "helicopter", "unique").is_none());
}

#[test]
fn max_u32_and_u64_values_format_correctly() {
    let json = format(u32::MAX, u64::MAX, "helicopter", "unique");
    assert_eq!(
        json,
        format!(
            r#"{{"blink_ms":{},"uptime_secs":{},"friendly_name":"helicopter","unique_name":"unique"}}"#,
            u32::MAX,
            u64::MAX
        )
    );
}

#[test]
fn exact_fit_succeeds_and_keeps_the_rest() {
    let expected = r#"{"blink_ms":7,"uptime_secs":8,"friendly_name":"a","unique_name":"b"}"#;
    let mut buf = vec![0xEEu8; expected.len() + 3];
    let n = format_status_json(&mut buf, 7, 8, "a", "b").unwrap();
    assert_eq!(n, expected.len());
    assert_eq!(&buf[..n], expected.as_bytes());
    assert_eq!(&buf[n..], &[0xEE, 0xEE, 0xEE]);

    let mut exact = vec![0u8; expected.len()];
    assert_eq!(format_status_json(&mut exact, 7, 8, "a", "b"), Some(expected.len()));
}

#[test]
fn failed_format_leaves_a_prefix_of_the_body() {
    let expected = r#"{"blink_ms":500,"uptime_secs":1,"friendly_name":"helicopter","unique_name":"unique"}"#;
    for size in 0..expected.len() {
        let mut buf = vec![0xEEu8; size];
        assert!(format_status_json(&mut buf, 500, 1, "helicopter", "unique").is_none());
        let written = buf.iter().position(|&b| b == 0xEE).unwrap_or(size);
        assert_eq!(&buf[..written], &expected.as_bytes()[..written]);
        assert!(buf[written..].iter().all(|&b| b == 0xEE));
    }
}

#[test]
fn escapes_every_control_byte_with_lower_case_hex() {
    let json = format(1, 2, "\u{1f}\u{0}\u{1b}", "\r");
    assert_eq!(
        json,
        "{\"blink_ms\":1,\"uptime_secs\":2,\"friendly_name\":\"\\u001f\\u0000\\u001b\",\"unique_name\":\"\\u000d\"}"
    );
}

#[test]
fn decimal_digits_have_no_leading_zeros() {
    let json = format(10, 1_000_000_000_000, "x", "y");
    assert_eq!(
        json,
        r#"{"blink_ms":10,"uptime_secs":1000000000000,"friendly_name":"x","unique_name":"y"}"#
    );
}

const UNTOUCHED: u8 = 0xEE;

/// Runs the formatter on a buffer of `size` bytes and returns what it wrote
/// before the untouched tail.
fn partial(size: usize, friendly: &str) -> Vec<u8> {
    let mut buf = vec![UNTOUCHED; size];
    assert!(format_status_json(&mut buf, 500, 1, friendly, "u").is_none());
    let written = buf.iter().position(|&b| b == UNTOUCHED).unwrap_or(size);
    assert!(buf[written..].iter().all(|&b| b == UNTOUCHED));
    buf[..written].to_vec()
}

#[test]
fn number_is_written_whole_or_not_at_all() {
    // `{"blink_ms":` is 12 bytes; the digits 500 do not fit in 14.
    assert_eq!(partial(14, "x"), br#"{"blink_ms":"#.to_vec());
}

#[test]
fn multi_byte_character_is_written_whole_or_not_at_all() {
    let head = r#"{"blink_ms":500,"uptime_secs":1,"friendly_name":""#;
    // Room for `h` and the first byte of `é` only.
    let got = partial(head.len() + 2, "héli");
    let mut expected = head.as_bytes().to_vec();
    expected.push(b'h');
    assert_eq!(got, expected);
}

#[test]
fn control_escape_is_written_in_its_pieces() {
    let head = r#"{"blink_ms":500,"uptime_secs":1,"friendly_name":""#;
    // `\u` and one padding zero fit; the second zero does not.
    let got = partial(head.len() + 3, "\u{1}");
    let mut expected = head.as_bytes().to_vec();
    expected.extend_from_slice(b"\\u0");
    assert_eq!(got, expected);
}
