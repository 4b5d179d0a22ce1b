use lbroker::datagram::{
    publish_command, subscribe_command, unsubscribe_command, CodecError, Command, Datagram,
    Message, MsgPackCodec, ReadError,
};
use rmpv::Value;

/// Parse one value of type `T` from `bytes` the way the codec's reader does, reporting the
/// number of bytes left or the kind of failure.
fn parse_outcome<T: serde::de::DeserializeOwned>(bytes: &[u8]) -> Result<usize, ReadError> {
    let mut buf = bytes;
    match rmp_serde::decode::from_read::<&mut &[u8], T>(&mut buf) {
        Ok(_) => Ok(buf.len()),
        Err(rmp_serde::decode::Error::LengthMismatch(_)) => Err(ReadError::LengthMismatch),
        Err(rmp_serde::decode::Error::InvalidMarkerRead(_)) => Err(ReadError::InvalidMarkerRead),
        Err(rmp_serde::decode::Error::InvalidDataRead(_)) => Err(ReadError::InvalidDataRead),
        Err(e) => Err(ReadError::Other(e.to_string())),
    }
}

#[test]
fn datagram_new_keeps_command_and_sender() {
    let d = Datagram::new(subscribe_command("a/*"), "sender");
    assert_eq!(d.sender, "sender");
    match d.command {
        Command::Subscribe { pattern } => assert_eq!(pattern, "a/*"),
        _ => panic!("wrong command"),
    }
}

#[test]
fn command_builders() {
    match publish_command("test", Value::from("test")) {
        Command::Publish { message } => {
            assert_eq!(message.topic, "test");
            assert_eq!(message.value, Value::from("test"));
        }
        _ => panic!("wrong command"),
    }
    match unsubscribe_command("x") {
        Command::Unsubscribe { pattern } => assert_eq!(pattern, "x"),
        _ => panic!("wrong command"),
    }
}

#[test]
fn command_descriptions() {
    let value = Value::from(7u64);
    let c = Command::Publish { message: Message { topic: "t".to_string(), value: value.clone() } };
    assert_eq!(c.describe(), format!("PUBLISH - t - {:?}", value));
    assert_eq!(subscribe_command("p*").describe(), "SUBSCRIBE - p*");
    assert_eq!(unsubscribe_command("p*").describe(), "UNSUBSCRIBE - p*");
}

#[test]
fn decode_step_consumes_a_complete_value() {
    let codec = MsgPackCodec::<String>::new();
    let mut bytes = Vec::new();
    rmpv::encode::write_value(&mut bytes, &Value::from("test")).unwrap();
    let frame_len = bytes.len();
    bytes.extend_from_slice(&[0x01, 0x02]);
    let outcome = parse_outcome::<String>(&bytes);
    assert!(matches!(outcome, Ok(2)));
    match codec.decode_step(bytes.len(), outcome) {
        Ok(Some(n)) => assert_eq!(n, frame_len),
        _ => panic!("expected a frame"),
    }
}

#[test]
fn decode_step_waits_for_more_bytes() {
    let codec = MsgPackCodec::<String>::new();
    let mut bytes = Vec::new();
    rmpv::encode::write_value(&mut bytes, &Value::from("a longer string")).unwrap();
    let partial = &bytes[..bytes.len() - 3];
    let outcome = parse_outcome::<String>(partial);
    assert!(matches!(outcome, Err(ReadError::InvalidDataRead)));
    assert!(matches!(codec.decode_step(partial.len(), outcome), Ok(None)));
    assert!(matches!(codec.decode_step(0, Err(ReadError::InvalidMarkerRead)), Ok(None)));
    assert!(matches!(codec.decode_step(4, Err(ReadError::LengthMismatch)), Ok(None)));
}

#[test]
fn decode_step_rejects_bad_data() {
    let codec = MsgPackCodec::<(String, String)>::new();
    let bytes = vec![12u8, 120, 27];
    let outcome = parse_outcome::<(String, String)>(&bytes);
    assert!(matches!(outcome, Err(ReadError::Other(_))));
    match codec.decode_step(bytes.len(), outcome) {
        Err(CodecError::InvalidData(text)) => assert!(!text.is_empty()),
        _ => panic!("expected invalid data"),
    }
}
