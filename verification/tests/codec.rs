use roomsync::num::{parse_u64, u64_to_dec};
use roomsync::roomfile::{parse_room, render_block, Room, RoomError};

fn chars(s: &str) -> Vec<char> {
    s.chars().collect()
}

#[test]
fn parse_minimal_room() {
    let text = "room name\\Test\nself name\\me\nserver handle\\http://h\n.\n";
    let room = parse_room(text).unwrap();
    assert_eq!(room.room_name, "Test");
    assert_eq!(room.self_name, "me");
    assert_eq!(room.server_handle, "http://h");
    assert!(room.self_message_lines.is_empty());
    assert_eq!(room.last_message_id, None);
    assert!(room.ends_with_newline);
}

#[test]
fn parse_missing_terminator() {
    let text = "room name\\Test\nself name\\me\n";
    assert_eq!(parse_room(text).unwrap_err(), RoomError::MissingTerminator);
}

#[test]
fn parse_missing_setting() {
    let text = "room name\\Test\nself name\\me\n.\n";
    assert_eq!(
        parse_room(text).unwrap_err(),
        RoomError::MissingServerHandle
    );
}

#[test]
fn parse_ambiguous_setting() {
    let text =
        "room name\\Test\nroom name\\Other\nself name\\me\nserver handle\\h\n.\n";
    assert_eq!(parse_room(text).unwrap_err(), RoomError::MissingRoomName);
}

#[test]
fn parse_duplicate_line_is_not_ambiguous() {
    let text =
        "room name\\Test\nroom name\\Test\nself name\\me\nserver handle\\h\n.\n";
    let room = parse_room(text).unwrap();
    assert_eq!(room.room_name, "Test");
}

#[test]
fn parse_staged_content() {
    let text = "room name\\Test\nself name\\me\nserver handle\\h\n.\nhello\nworld";
    let room = parse_room(text).unwrap();
    assert_eq!(room.self_message_lines, vec!["hello", "world"]);
    assert_eq!(room.last_message_id, None);
    assert!(!room.ends_with_newline);
}

#[test]
fn parse_resume_point() {
    let text = "room name\\Test\nself name\\me\nserver handle\\h\n.\nhi\n\\me\\Mon, 1 Jan 2024 00:00:00 +0000\\4\\7\n";
    let room = parse_room(text).unwrap();
    assert_eq!(room.last_message_id, Some(7));
    assert!(room.self_message_lines.is_empty());
    assert!(room.ends_with_newline);
}

#[test]
fn parse_staged_after_block() {
    let text = "room name\\Test\nself name\\me\nserver handle\\h\n.\nhi\n\\me\\t\\4\\7\ndraft line\n";
    let room = parse_room(text).unwrap();
    assert_eq!(room.last_message_id, Some(7));
    assert_eq!(room.self_message_lines, vec!["draft line"]);
    // The trailing empty line is seen before any staged content, so the
    // blank-line sentinel is set even though staged content follows a
    // committed block.
    assert!(room.ends_with_newline);
}

#[test]
fn parse_malformed_delimiter() {
    let text = "room name\\Test\nself name\\me\nserver handle\\h\n.\n\\me\\t\\4\\x\n";
    assert_eq!(parse_room(text).unwrap_err(), RoomError::MalformedDelimiter);
    let short = "room name\\Test\nself name\\me\nserver handle\\h\n.\n\\me\\t\n";
    assert_eq!(parse_room(short).unwrap_err(), RoomError::MalformedDelimiter);
}

#[test]
fn parse_crlf_and_trimmed_dot() {
    let text = "room name\\Test\r\nself name\\me\r\nserver handle\\h\r\n.  \r\n";
    let room = parse_room(text).unwrap();
    assert_eq!(room.room_name, "Test");
}

#[test]
fn parse_plus_signed_resume() {
    let text = "room name\\Test\nself name\\me\nserver handle\\h\n.\n\\me\\t\\4\\+9\n";
    let room = parse_room(text).unwrap();
    assert_eq!(room.last_message_id, Some(9));
}

#[test]
fn render_block_exact() {
    let lines = vec![String::from("a"), String::from("b")];
    let block = render_block(&lines, "me", "T", 4, 7);
    assert_eq!(block, "a\nb\n\\me\\T\\4\\7\n");
    let empty: Vec<String> = Vec::new();
    assert_eq!(render_block(&empty, "me", "T", 0, 0), "\\me\\T\\0\\0\n");
}

#[test]
fn block_round_trip_through_parser() {
    let config = "room name\\Test\nself name\\me\nserver handle\\h\n.\n";
    let lines = vec![String::from("one"), String::from("two")];
    let block = render_block(&lines, "sender", "Mon, 1 Jan 2024 00:00:00 +0000", 12, 12);
    let text = format!("{}{}", config, block);
    let room = parse_room(&text).unwrap();
    assert_eq!(room.last_message_id, Some(12));
    assert!(room.self_message_lines.is_empty());
    assert!(room.ends_with_newline);
}

#[test]
fn numerals_round_trip() {
    for n in [0u64, 1, 9, 10, 1234567890, u64::MAX] {
        let digits = u64_to_dec(n);
        assert_eq!(parse_u64(&digits), Some(n));
    }
    assert_eq!(
        u64_to_dec(18446744073709551615).iter().collect::<String>(),
        "18446744073709551615"
    );
    assert_eq!(parse_u64(&chars("+42")), Some(42));
    assert_eq!(parse_u64(&chars("")), None);
    assert_eq!(parse_u64(&chars("+")), None);
    assert_eq!(parse_u64(&chars("4x2")), None);
    assert_eq!(parse_u64(&chars("18446744073709551616")), None);
}

#[test]
fn room_type_is_buildable() {
    let room = Room {
        room_name: String::from("Test"),
        self_name: String::from("me"),
        server_handle: String::from("h"),
        self_message_lines: vec![String::from("hi")],
        last_message_id: Some(3),
        ends_with_newline: true,
    };
    assert_eq!(room.last_message_id, Some(3));
}
