use kvwire::decoder::CharRoller;
use kvwire::protocol::{format_message, get_instruction_type, MessageType};

#[test]
fn sigils_map_to_kinds() {
    assert_eq!(get_instruction_type('+'), Some(MessageType::SimpleString));
    assert_eq!(get_instruction_type('-'), Some(MessageType::Error));
    assert_eq!(get_instruction_type(':'), Some(MessageType::Integer));
    assert_eq!(get_instruction_type('$'), Some(MessageType::BulkString));
    assert_eq!(get_instruction_type('*'), Some(MessageType::Array));
    assert_eq!(get_instruction_type('x'), None);
}

#[test]
fn simple_string_and_error_frames() {
    assert_eq!(format_message(MessageType::SimpleString, "PONG".to_string()), "+PONG\r\n");
    assert_eq!(format_message(MessageType::Error, "bad".to_string()), "-bad\r\n");
}

#[test]
fn integer_and_array_frames_carry_only_the_sigil() {
    assert_eq!(format_message(MessageType::Integer, "12".to_string()), ":\r\n");
    assert_eq!(format_message(MessageType::Array, "x".to_string()), "*\r\n");
}

#[test]
fn bulk_string_frame_counts_bytes() {
    assert_eq!(format_message(MessageType::BulkString, "hello".to_string()), "$5\r\nhello\r\n");
    assert_eq!(format_message(MessageType::BulkString, "héllo".to_string()), "$6\r\nhéllo\r\n");
    let long = "a".repeat(12);
    assert_eq!(
        format_message(MessageType::BulkString, long.clone()),
        format!("$12\r\n{}\r\n", long)
    );
}

#[test]
fn bulk_string_round_trip() {
    let body = "some value".to_string();
    let wire = format_message(MessageType::BulkString, body.clone());
    let mut roller = CharRoller::from_string(wire);
    assert_eq!(roller.next_word(), Some("$10".to_string()));
    assert_eq!(roller.next_word(), Some(body));
    assert_eq!(roller.next_word(), None);
}
