use roomsync::client::{
    apply_response, build_append_text, build_request, should_write, MessageSuccess,
    NewMessage, ServerResponse, SyncRequest,
};
use roomsync::json::render_message_json;
use roomsync::next_message_id;
use roomsync::roomfile::parse_room;
use roomsync::store::Store;

fn fresh_store() -> Store<std::io::Cursor<Vec<u8>>> {
    let ass = assystem::ASS::open(std::io::Cursor::new(Vec::new())).unwrap();
    Store::new(ass)
}

fn request(room: &str, last: Option<u64>, lines: Vec<&str>, name: &str) -> SyncRequest {
    SyncRequest {
        room_name: String::from(room),
        last_message_id: last,
        self_message_lines: lines.into_iter().map(String::from).collect(),
        self_name: String::from(name),
    }
}

#[test]
fn next_id_starts_at_zero() {
    assert_eq!(next_message_id(None), 0);
    assert_eq!(next_message_id(Some(0)), 1);
    assert_eq!(next_message_id(Some(41)), 42);
}

#[test]
fn append_self_assigns_dense_ids() {
    let mut store = fresh_store();
    let lines = vec![String::from("hi")];
    for expected in 0u64..3 {
        let id = store.append_self("Test", &lines, "me", 5).unwrap();
        assert_eq!(id, expected);
    }
    // A second room starts over at 0.
    let id = store.append_self("Other", &lines, "me", 5).unwrap();
    assert_eq!(id, 0);
}

#[test]
fn read_from_returns_dense_run() {
    let mut store = fresh_store();
    for text in ["a", "b", "c"] {
        let lines = vec![String::from(text)];
        store.append_self("Test", &lines, "me", 1).unwrap();
    }
    assert_eq!(store.read_from("Test", 0).len(), 3);
    assert_eq!(store.read_from("Test", 1).len(), 2);
    assert_eq!(store.read_from("Test", 3).len(), 0);
    assert_eq!(store.read_from("Empty", 0).len(), 0);
}

#[test]
fn stored_payload_is_json() {
    let mut store = fresh_store();
    let lines = vec![String::from("he\"llo\\"), String::from("x")];
    store.append_self("Test", &lines, "m\ne", 42).unwrap();
    let payloads = store.read_from("Test", 0);
    let text = String::from_utf8(payloads[0].clone()).unwrap();
    let v: serde_json::Value = serde_json::from_str(&text).unwrap();
    assert_eq!(v["id"], 0);
    assert_eq!(v["lines"][0], "he\"llo\\");
    assert_eq!(v["lines"][1], "x");
    assert_eq!(v["sender_name"], "m\ne");
    assert_eq!(v["utc_unix_timestamp"], 42);
}

#[test]
fn rendered_json_is_exact() {
    let lines = vec![String::from("hi")];
    let rendered: String = render_message_json(&lines, 0, -7, "me").into_iter().collect();
    assert_eq!(
        rendered,
        "{\"id\":0,\"lines\":[\"hi\"],\"sender_name\":\"me\",\"utc_unix_timestamp\":-7}"
    );
}

#[test]
fn handler_fresh_room_scenario() {
    // A room file with the required settings and an empty tail, a server
    // with no prior state: sending one staged line gets id 0 back and no
    // inbound messages.
    let text = "room name\\Test\nself name\\me\nserver handle\\h\n.\nhi";
    let room = parse_room(text).unwrap();
    let req = build_request(&room);
    assert_eq!(req.room_name, "Test");
    assert_eq!(req.last_message_id, None);
    assert_eq!(req.self_message_lines, vec!["hi"]);
    let mut store = fresh_store();
    let resp = store.handle_request(&req).unwrap();
    let success = resp.self_message_success.unwrap();
    assert_eq!(success.id, 0);
    assert!(resp.new_message_payloads.is_empty());
    // The client then appends one block with no content lines whose
    // delimiter carries (self name, rendered time, 0, 0).
    let times = vec![String::from("T")];
    let client_resp = ServerResponse {
        self_message_success: Some(MessageSuccess {
            utc_unix_timestamp: success.utc_unix_timestamp,
            id: success.id,
        }),
        new_messages: Vec::new(),
    };
    let appended = build_append_text(&client_resp, "me", &times, false);
    assert_eq!(appended, "\n\\me\\T\\0\\0\n");
}

#[test]
fn handler_idempotent_noop() {
    let mut store = fresh_store();
    let lines = vec![String::from("hi")];
    store.append_self("Test", &lines, "me", 1).unwrap();
    // last seen is the server's maximum id and nothing is staged.
    let req = request("Test", Some(0), vec![], "me");
    let resp = store.handle_request(&req).unwrap();
    assert!(resp.self_message_success.is_none());
    assert!(resp.new_message_payloads.is_empty());
    // And the client performs no file write for such a response.
    let client_resp = ServerResponse {
        self_message_success: None,
        new_messages: Vec::new(),
    };
    assert!(!should_write(&client_resp));
    let room = parse_room("room name\\Test\nself name\\me\nserver handle\\h\n.\n").unwrap();
    assert_eq!(apply_response(&room, &client_resp).unwrap(), None);
}

#[test]
fn handler_catch_up_after_other_sender() {
    let mut store = fresh_store();
    let lines = vec![String::from("from other")];
    store.append_self("Test", &lines, "other", 1).unwrap();
    store.append_self("Test", &lines, "other", 2).unwrap();
    let req = request("Test", None, vec![], "me");
    let resp = store.handle_request(&req).unwrap();
    assert!(resp.self_message_success.is_none());
    assert_eq!(resp.new_message_payloads.len(), 2);
    let after = request("Test", Some(1), vec![], "me");
    let resp = store.handle_request(&after).unwrap();
    assert!(resp.new_message_payloads.is_empty());
}

#[test]
fn handler_rejects_exhausted_last_id() {
    let mut store = fresh_store();
    let req = request("Test", Some(u64::MAX), vec![], "me");
    assert!(store.handle_request(&req).is_err());
}

#[test]
fn append_text_resume_points() {
    // After an acknowledged self message, every written block carries the
    // acknowledged id as its resume point.
    let resp = ServerResponse {
        self_message_success: Some(MessageSuccess {
            utc_unix_timestamp: 0,
            id: 5,
        }),
        new_messages: vec![
            NewMessage {
                lines: vec![String::from("x")],
                id: 3,
                utc_unix_timestamp: 0,
                sender_name: String::from("a"),
            },
            NewMessage {
                lines: vec![String::from("y")],
                id: 4,
                utc_unix_timestamp: 0,
                sender_name: String::from("b"),
            },
        ],
    };
    let times = vec![String::from("T0"), String::from("T1"), String::from("T2")];
    let text = build_append_text(&resp, "me", &times, true);
    assert_eq!(text, "\\me\\T0\\5\\5\nx\n\\a\\T1\\3\\5\ny\n\\b\\T2\\4\\5\n");
}

#[test]
fn append_text_without_ack_uses_own_ids() {
    let resp = ServerResponse {
        self_message_success: None,
        new_messages: vec![
            NewMessage {
                lines: vec![String::from("x")],
                id: 3,
                utc_unix_timestamp: 0,
                sender_name: String::from("a"),
            },
            NewMessage {
                lines: Vec::new(),
                id: 4,
                utc_unix_timestamp: 0,
                sender_name: String::from("b"),
            },
        ],
    };
    let times = vec![String::from("T1"), String::from("T2")];
    let text = build_append_text(&resp, "me", &times, true);
    assert_eq!(text, "x\n\\a\\T1\\3\\3\n\\b\\T2\\4\\4\n");
}

#[test]
fn blank_line_restored_once() {
    let resp = ServerResponse {
        self_message_success: Some(MessageSuccess {
            utc_unix_timestamp: 0,
            id: 0,
        }),
        new_messages: Vec::new(),
    };
    let times = vec![String::from("T")];
    let with_blank = build_append_text(&resp, "me", &times, true);
    let without_blank = build_append_text(&resp, "me", &times, false);
    assert_eq!(without_blank, format!("\n{}", with_blank));
    assert!(!with_blank.starts_with('\n'));
}

#[test]
fn apply_response_appends_blocks() {
    let room = parse_room("room name\\Test\nself name\\me\nserver handle\\h\n.\nhi").unwrap();
    assert!(!room.ends_with_newline);
    let resp = ServerResponse {
        self_message_success: Some(MessageSuccess {
            utc_unix_timestamp: 0,
            id: 0,
        }),
        new_messages: Vec::new(),
    };
    let text = apply_response(&room, &resp).unwrap().unwrap();
    assert!(text.starts_with("\n\\me\\"));
    assert!(text.ends_with("\\0\\0\n"));
    assert_eq!(text.matches('\n').count(), 2);
}
