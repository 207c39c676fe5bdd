use ddbb::frame::Frame;
use ddbb::resp::{decimal_bytes, FrameError};

#[test]
fn test_frame() {
    let frame = Frame::Array(vec![
        Frame::Simple("hello ".to_string()),
        Frame::Bulk(Vec::from("world!")),
    ]);

    let serialized = frame.serialize();
    assert_eq!(serialized, b"*2\r\n+hello \r\n$6\r\nworld!\r\n".to_vec());

    let fame_res = Frame::deserialize(&serialized);
    assert_eq!(fame_res, Ok(frame));

    let mut buffer_bytes_mut: Vec<u8> = Vec::with_capacity(64);
    let bin_str = b"*2\r\n$5\r\nhello\r\n$5\r\nworld\r\n";
    buffer_bytes_mut.extend_from_slice(&bin_str[..]);
    let frame_res = match Frame::check(&buffer_bytes_mut) {
        Ok(len) => {
            let frame_res = Frame::parse_at(&buffer_bytes_mut, 0);
            buffer_bytes_mut.drain(..len);
            Ok(Some(frame_res.unwrap().0))
        }
        Err(FrameError::Incomplete) => Err(Frame::Null),
        Err(_) => panic!(),
    };
    assert_eq!(
        frame_res,
        Ok(Some(Frame::Array(vec![Frame::Bulk(Vec::from("hello")), Frame::Bulk(Vec::from("world"))])))
    );
    assert!(buffer_bytes_mut.is_empty());
}

#[test]
fn frames_round_trip_through_bytes() {
    let frames = vec![
        Frame::Simple("OK".to_string()),
        Frame::Error("ERR bad".to_string()),
        Frame::Integer(0),
        Frame::Integer(u64::MAX),
        Frame::Null,
        Frame::Bulk(vec![0, 13, 10, 255]),
        Frame::Array(vec![]),
        Frame::Array(vec![
            Frame::Array(vec![Frame::Integer(1), Frame::Null]),
            Frame::Simple("héllo".to_string()),
        ]),
    ];
    for f in frames {
        let mut bytes = f.serialize();
        let len = bytes.len();
        bytes.extend_from_slice(b"+next\r\n");
        assert_eq!(Frame::parse_at(&bytes, 0), Ok((f, len)));
        assert_eq!(Frame::parse_at(&bytes, len), Ok((Frame::Simple("next".to_string()), bytes.len())));
    }
}

#[test]
fn incomplete_and_invalid_bytes() {
    assert_eq!(Frame::check(b""), Err(FrameError::Incomplete));
    assert_eq!(Frame::check(b"+hello"), Err(FrameError::Incomplete));
    assert_eq!(Frame::check(b"$5\r\nhel"), Err(FrameError::Incomplete));
    assert_eq!(Frame::check(b"*2\r\n:1\r\n"), Err(FrameError::Incomplete));
    assert_eq!(Frame::check(b"?x\r\n"), Err(FrameError::Invalid));
    assert_eq!(Frame::check(b":12a\r\n"), Err(FrameError::Invalid));
    assert_eq!(Frame::check(b":18446744073709551616\r\n"), Err(FrameError::Invalid));
    assert_eq!(Frame::check(b"$-2\r\n"), Err(FrameError::Invalid));
    assert_eq!(Frame::check(b"$2\r\nabcd"), Err(FrameError::Invalid));
    assert_eq!(Frame::check(b"+\xff\r\n"), Err(FrameError::Invalid));
    assert_eq!(Frame::check(b"$-1\r\n"), Ok(5));
    assert_eq!(Frame::deserialize(b":42\r\n"), Ok(Frame::Integer(42)));
}

#[test]
fn decimal_bytes_of_numbers() {
    assert_eq!(decimal_bytes(0), b"0".to_vec());
    assert_eq!(decimal_bytes(64500), b"64500".to_vec());
    assert_eq!(decimal_bytes(u64::MAX), b"18446744073709551615".to_vec());
}
