use greenscreen::codec::encode_event;
use greenscreen::codec::u64_to_string;
use greenscreen::events::EventMessage;

#[test]
fn decimal_rendering() {
    assert_eq!(u64_to_string(0), "0");
    assert_eq!(u64_to_string(7), "7");
    assert_eq!(u64_to_string(10), "10");
    assert_eq!(u64_to_string(256), "256");
    assert_eq!(u64_to_string(1234567890), "1234567890");
    assert_eq!(u64_to_string(u64::MAX), "18446744073709551615");
}

#[test]
fn wire_text_of_each_event() {
    assert_eq!(encode_event(&EventMessage::Connected(100)), "{\"connected\":100}");
    assert_eq!(encode_event(&EventMessage::Speaking(100)), "{\"speaking\":100}");
    assert_eq!(encode_event(&EventMessage::Quiet(100)), "{\"quiet\":100}");
    assert_eq!(
        encode_event(&EventMessage::Disconnected(100)),
        "{\"disconnected\":100}"
    );
    assert_eq!(encode_event(&EventMessage::Heartbeat), "{\"heartbeat\":null}");
}

#[test]
fn wire_text_edge_identifiers() {
    assert_eq!(encode_event(&EventMessage::Connected(0)), "{\"connected\":0}");
    assert_eq!(
        encode_event(&EventMessage::Speaking(u64::MAX)),
        "{\"speaking\":18446744073709551615}"
    );
}
