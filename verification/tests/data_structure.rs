use ddbb::data_structure::{CommandEntry, DataEntry, FrameCast, LogEntry, MessageEntry};
use ddbb::frame::Frame;

#[test]
fn test_log_entry() {
    let log = LogEntry::SetValue {
        key: "testKey".to_string(),
        value: Vec::from("tempValue"),
    };
    println!("log: {:?}", log);
    // the entry as serde serializes it: {"SetValue":{"key":...,"value":[...]}}
    let mut fields = serde_json::Map::new();
    fields.insert("key".to_string(), serde_json::Value::String("testKey".to_string()));
    let bytes: Vec<serde_json::Value> = Vec::from("tempValue")
        .into_iter()
        .map(|b: u8| serde_json::Value::from(b))
        .collect();
    fields.insert("value".to_string(), serde_json::Value::Array(bytes));
    let mut outer = serde_json::Map::new();
    outer.insert("SetValue".to_string(), serde_json::Value::Object(fields));
    let json = serde_json::to_vec(&serde_json::Value::Object(outer.clone())).unwrap();

    let frame = LogEntry::frame_of_json(json.clone());
    assert_eq!(
        frame,
        Frame::Array(vec![Frame::Simple("LogEntry".to_string()), Frame::Bulk(json.clone())])
    );
    let de_frame = LogEntry::json_of_frame(&frame).unwrap();
    println!("de frame: {:?}", de_frame);
    assert_eq!(de_frame, json);
    let value: serde_json::Value = serde_json::from_slice(&de_frame).unwrap();
    assert_eq!(value, serde_json::Value::Object(outer));
}

#[test]
fn temp() {
    let temp = DataEntry::KeyValue {
        key: "tempKey".to_string(),
        value: Vec::from("tempValue"),
    };
    println!("{:?}", temp.to_frame());
    let temp = DataEntry::from_frame(&temp.to_frame());
    match *temp.unwrap() {
        DataEntry::KeyValue { key, value } => {
            println!("{}, {:?}", key, value);
            assert_eq!(key, "tempKey");
            assert_eq!(value, Vec::from("tempValue"));
        }
    }
}

#[test]
fn frame_text_of_each_kind() {
    assert_eq!(Frame::Simple("hello".to_string()).to_text(), "hello");
    assert_eq!(Frame::Error("bad".to_string()).to_text(), "error: bad");
    assert_eq!(Frame::Integer(150).to_text(), "150");
    assert_eq!(Frame::Integer(0).to_text(), "0");
    assert_eq!(Frame::Bulk(Vec::from("world!")).to_text(), "world!");
    assert_eq!(Frame::Null.to_text(), "(nil)");
    let arr = Frame::Array(vec![
        Frame::Simple("hello".to_string()),
        Frame::Bulk(Vec::from("world")),
        Frame::Integer(7),
    ]);
    assert_eq!(arr.to_text(), "hello world 7");
    assert_eq!(Frame::Array(vec![]).to_text(), "");
}

#[test]
fn frame_text_of_invalid_utf8_bulk() {
    let f = Frame::Bulk(vec![0xff, b'a', b'\n', b'"', 0]);
    assert_eq!(f.to_text(), "b\"\\xffa\\n\\\"\\0\"");
}

#[test]
fn frame_equals_str_simple_and_bulk() {
    assert!(Frame::Simple("LogEntry".to_string()).equals_str("LogEntry"));
    assert!(Frame::Bulk(Vec::from("LogEntry")).equals_str("LogEntry"));
    assert!(!Frame::Simple("LogEntr".to_string()).equals_str("LogEntry"));
    assert!(!Frame::Integer(1).equals_str("1"));
    assert!(!Frame::Null.equals_str("(nil)"));
}

#[test]
fn unexpected_frame_error_message() {
    let e = Frame::Integer(3).to_error();
    assert_eq!(e.message, "unexpected frame: 3");
    let r = MessageEntry::from_frame(&Frame::Null);
    assert_eq!(r.unwrap_err().message, "unexpected frame: (nil)");
}

#[test]
fn message_entry_roundtrip() {
    for m in [
        MessageEntry::Success { msg: "Operation success".to_string() },
        MessageEntry::Error { err_msg: "no such key".to_string() },
    ] {
        let f = m.to_frame();
        assert_eq!(*MessageEntry::from_frame(&f).unwrap(), m);
    }
    let f = MessageEntry::Success { msg: "ok".to_string() }.to_frame();
    assert_eq!(
        f,
        Frame::Array(vec![
            Frame::Simple("MessageEntry::Success".to_string()),
            Frame::Simple("ok".to_string())
        ])
    );
}

#[test]
fn message_entry_wrong_tag_is_error() {
    let f = Frame::Array(vec![
        Frame::Simple("MessageEntry::Other".to_string()),
        Frame::Simple("x".to_string()),
    ]);
    let e = MessageEntry::from_frame(&f).unwrap_err();
    assert_eq!(e.message, "unexpected frame: MessageEntry::Other x");
}

#[test]
fn data_entry_invalid_utf8_value_reads_back_escaped() {
    let d = DataEntry::KeyValue { key: "k".to_string(), value: vec![0xfe] };
    let back = DataEntry::from_frame(&d.to_frame()).unwrap();
    assert_eq!(*back, DataEntry::KeyValue { key: "k".to_string(), value: Vec::from("b\"\\xfe\"") });
}

#[test]
fn command_entry_set_roundtrip() {
    let c = CommandEntry::SetValue { key: "tempKey".to_string(), value: Vec::from("tempValue") };
    assert_eq!(*CommandEntry::from_frame(&c.to_frame()).unwrap(), c);
}

#[test]
fn command_entry_get_reads_back_the_tag() {
    let c = CommandEntry::GetValue { key: "k1".to_string() };
    let f = c.to_frame();
    assert_eq!(
        f,
        Frame::Array(vec![
            Frame::Simple("CommandEntry::GetValue".to_string()),
            Frame::Simple("CommandEntry::GetValue".to_string()),
            Frame::Simple("k1".to_string()),
        ])
    );
    assert_eq!(
        *CommandEntry::from_frame(&f).unwrap(),
        CommandEntry::GetValue { key: "CommandEntry::GetValue".to_string() }
    );
}

#[test]
fn command_entry_empty_is_unreadable() {
    let f = CommandEntry::Empty.to_frame();
    assert_eq!(f, Frame::Array(vec![]));
    assert_eq!(CommandEntry::from_frame(&f).unwrap_err().message, "unexpected frame: ");
}

#[test]
fn log_entry_frame_without_bulk_is_error() {
    let f = Frame::Array(vec![
        Frame::Simple("LogEntry".to_string()),
        Frame::Simple("{}".to_string()),
    ]);
    assert_eq!(LogEntry::json_of_frame(&f).unwrap_err().message, "unexpected frame: LogEntry {}");
}

#[test]
fn log_entry_same_and_copy() {
    let a = LogEntry::LINRead { opid: ("n".to_string(), 3), key: "k".to_string(), value: Some(vec![1]) };
    let b = a.copy();
    assert!(a.same(&b));
    assert_eq!(a, b);
    let c = LogEntry::LINRead { opid: ("n".to_string(), 4), key: "k".to_string(), value: Some(vec![1]) };
    assert!(!a.same(&c));
    assert!(!LogEntry::Compact.same(&a));
    assert!(LogEntry::Compact.same(&LogEntry::Compact));
}
