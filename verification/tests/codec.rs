use broadcast_server::codec::{decode_state, decode_transition, encode_state_value, encode_transition};
use broadcast_server::state_machine::CounterTransition;

#[test]
fn encode_state_canonical() {
    assert_eq!(encode_state_value(0), b"{\"value\":0}".to_vec());
    assert_eq!(encode_state_value(1), b"{\"value\":1}".to_vec());
    assert_eq!(encode_state_value(-2), b"{\"value\":-2}".to_vec());
    assert_eq!(encode_state_value(1234567890), b"{\"value\":1234567890}".to_vec());
}

#[test]
fn encode_state_extremes() {
    assert_eq!(
        encode_state_value(i64::MAX),
        b"{\"value\":9223372036854775807}".to_vec()
    );
    assert_eq!(
        encode_state_value(i64::MIN),
        b"{\"value\":-9223372036854775808}".to_vec()
    );
}

#[test]
fn encode_transition_canonical() {
    assert_eq!(
        encode_transition(&CounterTransition::Add(1)),
        b"{\"Add\":1}".to_vec()
    );
    assert_eq!(
        encode_transition(&CounterTransition::Subtract(3)),
        b"{\"Subtract\":3}".to_vec()
    );
    assert_eq!(encode_transition(&CounterTransition::Reset), b"\"Reset\"".to_vec());
    assert_eq!(
        encode_transition(&CounterTransition::Add(-15)),
        b"{\"Add\":-15}".to_vec()
    );
}

#[test]
fn decode_transition_canonical() {
    assert_eq!(decode_transition(b"{\"Add\":1}"), Some(CounterTransition::Add(1)));
    assert_eq!(
        decode_transition(b"{\"Subtract\":3}"),
        Some(CounterTransition::Subtract(3))
    );
    assert_eq!(decode_transition(b"\"Reset\""), Some(CounterTransition::Reset));
    assert_eq!(decode_transition(b"{\"Add\":-7}"), Some(CounterTransition::Add(-7)));
}

#[test]
fn decode_transition_with_whitespace() {
    assert_eq!(
        decode_transition(b"  { \"Add\" : 42 }  "),
        Some(CounterTransition::Add(42))
    );
    assert_eq!(
        decode_transition(b"\t{\n\"Subtract\"\r:\n-1\t}\n"),
        Some(CounterTransition::Subtract(-1))
    );
    assert_eq!(decode_transition(b"  \"Reset\"  "), Some(CounterTransition::Reset));
}

#[test]
fn decode_transition_extremes() {
    assert_eq!(
        decode_transition(b"{\"Add\":9223372036854775807}"),
        Some(CounterTransition::Add(i64::MAX))
    );
    assert_eq!(
        decode_transition(b"{\"Add\":-9223372036854775808}"),
        Some(CounterTransition::Add(i64::MIN))
    );
    assert_eq!(decode_transition(b"{\"Add\":-0}"), Some(CounterTransition::Add(0)));
}

#[test]
fn decode_transition_rejects_non_transitions() {
    assert_eq!(decode_transition(b"hello"), None);
    assert_eq!(decode_transition(b""), None);
    assert_eq!(decode_transition(b"   "), None);
    assert_eq!(decode_transition(b"Reset"), None);
    assert_eq!(decode_transition(b"{\"Mul\":2}"), None);
    assert_eq!(decode_transition(b"{\"Add\":}"), None);
    assert_eq!(decode_transition(b"{\"Add\":-}"), None);
    assert_eq!(decode_transition(b"{\"Add\":1"), None);
    assert_eq!(decode_transition(b"{\"Add\":1}x"), None);
    assert_eq!(decode_transition(b"{\"Add\":1.5}"), None);
    assert_eq!(decode_transition(b"{\"add\":1}"), None);
}

#[test]
fn decode_transition_rejects_bad_numbers() {
    // leading zeros are not well-formed
    assert_eq!(decode_transition(b"{\"Add\":01}"), None);
    assert_eq!(decode_transition(b"{\"Add\":-01}"), None);
    // out of the signed 64-bit range
    assert_eq!(decode_transition(b"{\"Add\":9223372036854775808}"), None);
    assert_eq!(decode_transition(b"{\"Add\":-9223372036854775809}"), None);
    assert_eq!(decode_transition(b"{\"Add\":99999999999999999999999999}"), None);
}

#[test]
fn decode_state_canonical() {
    assert_eq!(decode_state(b"{\"value\":0}"), Some(0));
    assert_eq!(decode_state(b"{\"value\":-2}"), Some(-2));
    assert_eq!(decode_state(b" { \"value\" : 17 } "), Some(17));
    assert_eq!(decode_state(b"{\"count\":1}"), None);
    assert_eq!(decode_state(b"hello"), None);
}

#[test]
fn state_round_trip() {
    for v in [0i64, 1, -1, 42, -1000, i64::MAX, i64::MIN] {
        assert_eq!(decode_state(&encode_state_value(v)), Some(v));
    }
}

#[test]
fn transition_round_trip() {
    for t in [
        CounterTransition::Add(0),
        CounterTransition::Add(-123),
        CounterTransition::Subtract(i64::MAX),
        CounterTransition::Reset,
    ] {
        assert_eq!(decode_transition(&encode_transition(&t)), Some(t));
    }
}

#[test]
fn reencode_is_stable() {
    let decoded = decode_transition(b" { \"Add\" : 7 } ").unwrap();
    let canonical = encode_transition(&decoded);
    assert_eq!(canonical, b"{\"Add\":7}".to_vec());
    assert_eq!(decode_transition(&canonical), Some(decoded));
}

#[test]
fn encoded_state_is_json() {
    let bytes = encode_state_value(-42);
    let text = String::from_utf8(bytes).unwrap();
    let parsed: serde_json::Value = serde_json::from_str(&text).unwrap();
    assert_eq!(parsed["value"].as_i64(), Some(-42));
}

#[test]
fn decodes_what_json_produces() {
    let mut obj = serde_json::Map::new();
    obj.insert("Add".to_string(), serde_json::Value::from(1i64));
    let text = serde_json::Value::Object(obj).to_string();
    assert_eq!(text, "{\"Add\":1}");
    assert_eq!(
        decode_transition(text.as_bytes()),
        Some(CounterTransition::Add(1))
    );
    let reset = serde_json::Value::String("Reset".to_string()).to_string();
    assert_eq!(
        decode_transition(reset.as_bytes()),
        Some(CounterTransition::Reset)
    );
}
