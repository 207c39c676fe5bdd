use ddbb::cli::{
    node_address, parse_client_command, parse_server_request, peers_update, route_message,
    route_request, select_node, Route, ServerRequest,
};
use ddbb::data_structure::CommandEntry;

#[test]
fn server_lines() {
    match parse_server_request("read key1\n") {
        ServerRequest::Read { key } => assert_eq!(key, "key1"),
        other => panic!("{:?}", other),
    }
    match parse_server_request("  write k v1 ") {
        ServerRequest::Write { key, value } => {
            assert_eq!(key, "k");
            assert_eq!(value, Vec::from("v1"));
        }
        other => panic!("{:?}", other),
    }
    match parse_server_request("read") {
        ServerRequest::Invalid { message } => assert_eq!(message, " -> ERROR: Incorrect  command"),
        other => panic!("{:?}", other),
    }
    match parse_server_request("write k") {
        ServerRequest::Invalid { message } => assert_eq!(message, " -> ERROR: Incorrect command"),
        other => panic!("{:?}", other),
    }
    match parse_server_request("read  k") {
        ServerRequest::Invalid { message } => assert_eq!(message, " -> ERROR: Incorrect  command"),
        other => panic!("{:?}", other),
    }
    assert!(matches!(parse_server_request(" show\n"), ServerRequest::Show));
    match parse_server_request("show all") {
        ServerRequest::Invalid { message } => assert_eq!(message, " -> ERROR: Incorrect command"),
        other => panic!("{:?}", other),
    }
    match parse_server_request("list") {
        ServerRequest::Invalid { message } => assert_eq!(message, " -> ERROR: Unknown command"),
        other => panic!("{:?}", other),
    }
}

#[test]
fn client_lines() {
    assert_eq!(
        parse_client_command("get a\r\n").unwrap(),
        CommandEntry::GetValue { key: "a".to_string() }
    );
    assert_eq!(
        parse_client_command("set a héllo").unwrap(),
        CommandEntry::SetValue { key: "a".to_string(), value: Vec::from("héllo") }
    );
    assert_eq!(parse_client_command("get").unwrap_err(), " -> ERROR: Incorrect  command");
    assert_eq!(parse_client_command("set a").unwrap_err(), " -> ERROR: Incorrect command");
    assert_eq!(parse_client_command("").unwrap_err(), " -> ERROR: Unknown command");
}

#[test]
fn node_selection() {
    assert_eq!(select_node(0, 3), 0);
    assert_eq!(select_node(1, 3), 1);
    assert_eq!(select_node(5, 3), 1);
    assert_eq!(select_node(6, 3), 2);
    assert_eq!(select_node(100, 3), 3);
    assert_eq!(select_node(100, 0), 1);
    assert_eq!(node_address(2), "127.0.0.1:64502");
}

#[test]
fn request_routes() {
    assert!(matches!(route_request("put", "put 7", 4), Route::PutWithoutValue));
    match route_request("put", "put 12 v", 4) {
        Route::Send { node, address, put } => {
            assert_eq!(node, 3);
            assert_eq!(address, "127.0.0.1:64503");
            assert!(put);
        }
        other => panic!("{:?}", other),
    }
    match route_request("get", "get 3", 4) {
        Route::Send { node, put, .. } => {
            assert_eq!(node, 1);
            assert!(!put);
        }
        other => panic!("{:?}", other),
    }
    assert!(matches!(route_request("put", "put 1 2 3", 4), Route::Unforeseen));
}

#[test]
fn unicode_white_space_is_trimmed() {
    match parse_server_request("\u{3000}\tread k\u{2028}\u{a0}") {
        ServerRequest::Read { key } => assert_eq!(key, "k"),
        other => panic!("{:?}", other),
    }
    // a white space that is not a plain space splits no words
    match parse_server_request("read\u{a0}k") {
        ServerRequest::Invalid { message } => assert_eq!(message, " -> ERROR: Unknown command"),
        other => panic!("{:?}", other),
    }
}

#[test]
fn request_keys_are_parsed_as_numbers() {
    match route_request("get", "get +6", 3) {
        Route::Send { node, .. } => assert_eq!(node, 2),
        other => panic!("{:?}", other),
    }
    match route_request("get", "get 18446744073709551615", 3) {
        Route::Send { node, .. } => assert_eq!(node, 3),
        other => panic!("{:?}", other),
    }
    match route_request("put", "put 007 v", 3) {
        Route::Send { node, put, .. } => {
            assert_eq!(node, 2);
            assert!(put);
        }
        other => panic!("{:?}", other),
    }
}

#[test]
fn peer_updates_are_read_from_bincode() {
    assert_eq!(peers_update(&bincode::serialize(&3u64).unwrap()), Some(3));
    assert_eq!(peers_update(&vec![1, 1, 0, 0, 0, 0, 0, 0, 9]), Some(257));
    assert_eq!(peers_update(&vec![1, 2, 3]), None);
}

#[test]
fn messages_are_routed_and_sent_trimmed() {
    let message = bincode::serialize("put 7 hello\n").unwrap();
    let (route, bytes) = route_message("put", &message, 4).unwrap();
    match route {
        Route::Send { node, address, put } => {
            assert_eq!(node, 2);
            assert_eq!(address, "127.0.0.1:64502");
            assert!(put);
        }
        other => panic!("{:?}", other),
    }
    assert_eq!(bytes, bincode::serialize("put 7 hello").unwrap());
    let mut expected = vec![11, 0, 0, 0, 0, 0, 0, 0];
    expected.extend_from_slice(b"put 7 hello");
    assert_eq!(bytes, expected);
    // the bytes sent read back as the trimmed request, and route the same way
    assert_eq!(bincode::deserialize::<String>(&bytes).unwrap(), "put 7 hello");
    assert!(matches!(route_message("put", &bytes, 4).unwrap().0, Route::Send { node: 2, .. }));

    let message = bincode::serialize("get 0").unwrap();
    let (route, bytes) = route_message("get", &message, 4).unwrap();
    assert!(matches!(route, Route::Send { node: 0, put: false, .. }));
    assert_eq!(bytes, message);

    let message = bincode::serialize("put 3").unwrap();
    assert!(matches!(route_message("put", &message, 4).unwrap().0, Route::PutWithoutValue));
}

#[test]
fn malformed_messages_are_not_routed() {
    // no key
    assert!(route_message("get", &bincode::serialize("get").unwrap(), 4).is_none());
    // a key that is not a number
    assert!(route_message("get", &bincode::serialize("get x").unwrap(), 4).is_none());
    // a length longer than the bytes
    assert!(route_message("get", &vec![9, 0, 0, 0, 0, 0, 0, 0, 103], 4).is_none());
    // bytes that are not UTF-8
    assert!(route_message("get", &vec![1, 0, 0, 0, 0, 0, 0, 0, 0xff], 4).is_none());
    // trailing bytes after the string are left alone
    let mut message = bincode::serialize("get 6").unwrap();
    message.push(0xff);
    assert!(matches!(route_message("get", &message, 4).unwrap().0, Route::Send { node: 2, .. }));
}
