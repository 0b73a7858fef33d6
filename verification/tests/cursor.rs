use base64::Engine;
use chat_store::cursor::{decode_cursor, encode_cursor, CursorError};
use chat_store::timestamp::Timestamp;

fn b64(s: &str) -> String {
    base64::engine::general_purpose::STANDARD.encode(s.as_bytes())
}

fn round_trips(micros: i64) {
    let t = Timestamp { micros };
    let s = encode_cursor(t);
    assert_eq!(decode_cursor(s.as_str()), Ok(t));
}

#[test]
fn cursor_round_trip_small_values() {
    round_trips(0);
    round_trips(1);
    round_trips(9);
    round_trips(10);
    round_trips(42);
    round_trips(-1);
    round_trips(-10);
}

#[test]
fn cursor_round_trip_large_values() {
    round_trips(1700000000000000);
    round_trips(-1700000000000000);
    round_trips(i64::MAX);
    round_trips(i64::MIN);
    round_trips(i64::MAX - 1);
    round_trips(i64::MIN + 1);
}

#[test]
fn cursor_is_base64_of_the_decimal() {
    // "0" encodes to the base64 string "MA=="; in particular the cursor is
    // not the bare decimal.
    let s = encode_cursor(Timestamp { micros: 0 });
    assert_eq!(s, "MA==");
    let s = encode_cursor(Timestamp { micros: -42 });
    assert_eq!(s, b64("-42"));
    let s = encode_cursor(Timestamp { micros: 1700000000000000 });
    assert_eq!(s, b64("1700000000000000"));
}

#[test]
fn cursor_rejects_non_base64() {
    assert_eq!(decode_cursor("not base64!!!"), Err(CursorError::InvalidCursor));
    assert_eq!(decode_cursor("12345"), Err(CursorError::InvalidCursor));
    assert_eq!(decode_cursor("0"), Err(CursorError::InvalidCursor));
    assert_eq!(decode_cursor("===="), Err(CursorError::InvalidCursor));
}

#[test]
fn cursor_rejects_foreign_content() {
    // Valid base64, but not the rendering of any timestamp.
    assert_eq!(decode_cursor(&b64("hello")), Err(CursorError::InvalidCursor));
    assert_eq!(decode_cursor(&b64("")), Err(CursorError::InvalidCursor));
    assert_eq!(decode_cursor(""), Err(CursorError::InvalidCursor));
    assert_eq!(decode_cursor(&b64(" 42")), Err(CursorError::InvalidCursor));
    assert_eq!(decode_cursor(&b64("42 ")), Err(CursorError::InvalidCursor));
    assert_eq!(decode_cursor(&b64("+42")), Err(CursorError::InvalidCursor));
    assert_eq!(decode_cursor(&b64("4.2")), Err(CursorError::InvalidCursor));
}

#[test]
fn cursor_rejects_non_canonical_decimals() {
    assert_eq!(decode_cursor(&b64("01")), Err(CursorError::InvalidCursor));
    assert_eq!(decode_cursor(&b64("007")), Err(CursorError::InvalidCursor));
    assert_eq!(decode_cursor(&b64("-0")), Err(CursorError::InvalidCursor));
    assert_eq!(decode_cursor(&b64("-")), Err(CursorError::InvalidCursor));
    assert_eq!(decode_cursor(&b64("-01")), Err(CursorError::InvalidCursor));
}

#[test]
fn cursor_rejects_out_of_range_values() {
    // One past each end of the i64 range, and something far longer.
    assert_eq!(decode_cursor(&b64("9223372036854775808")), Err(CursorError::InvalidCursor));
    assert_eq!(decode_cursor(&b64("-9223372036854775809")), Err(CursorError::InvalidCursor));
    assert_eq!(decode_cursor(&b64("99999999999999999999999999")), Err(CursorError::InvalidCursor));
    // The extremes themselves still decode.
    assert_eq!(
        decode_cursor(&b64("9223372036854775807")),
        Ok(Timestamp { micros: i64::MAX })
    );
    assert_eq!(
        decode_cursor(&b64("-9223372036854775808")),
        Ok(Timestamp { micros: i64::MIN })
    );
}

#[test]
fn cursor_rejects_truncated_and_padded_forms() {
    let s = encode_cursor(Timestamp { micros: 1700000000000000 });
    // Truncating the cursor must not decode to some other timestamp.
    let cut = &s[..s.len() - 1];
    assert_eq!(decode_cursor(cut), Err(CursorError::InvalidCursor));
    let doubled = format!("{}{}", s, s);
    assert_eq!(decode_cursor(&doubled), Err(CursorError::InvalidCursor));
}
