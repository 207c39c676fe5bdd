//! The data structures of the store and how each is cast to and from frames.
use vstd::prelude::*;
use vstd::string::*;
use vstd::utf8::{valid_utf8, decode_utf8, encode_utf8};
use crate::frame::{
    Frame, FrameV, Error, frame_text, frame_equals_str, unexpected_frame_text,
    lemma_frames_view, frames_view, array2, array3, simple,
};

verus! {

/// A value that can be written as a frame and read back from one.
pub trait FrameCast: Sized {
    fn to_frame(&self) -> Frame;

    fn from_frame(frame: &Frame) -> Result<Box<Self>, Error>;
}

/// The bytes of the text of a frame, as `Bytes::from(frame.to_string())`
/// gives them.
pub open spec fn frame_text_bytes(f: FrameV) -> Seq<u8> {
    encode_utf8(frame_text(f))
}

/// The bytes of the text of `frame`.
pub fn text_bytes(frame: &Frame) -> (r: Vec<u8>)
    ensures
        r@ == frame_text_bytes(frame@),
{
    let t = frame.to_text();
    t.as_str().as_bytes_vec()
}

// ---------------------------------------------------------------- MessageEntry

/// A reply of a server to a client.
#[derive(Clone, Debug, PartialEq, Eq)]
pub enum MessageEntry {
    Success { msg: String },
    Error { err_msg: String },
}

pub enum MessageEntryV {
    Success { msg: Seq<char> },
    Error { err_msg: Seq<char> },
}

impl View for MessageEntry {
    type V = MessageEntryV;

    open spec fn view(&self) -> MessageEntryV {
        match self {
            MessageEntry::Success { msg } => MessageEntryV::Success { msg: msg@ },
            MessageEntry::Error { err_msg } => MessageEntryV::Error { err_msg: err_msg@ },
        }
    }
}

/// The frame of a reply: its tag, then its text.
pub open spec fn message_frame(m: MessageEntryV) -> FrameV {
    match m {
        MessageEntryV::Success { msg } => FrameV::Array(
            seq![FrameV::Simple("MessageEntry::Success"@), FrameV::Simple(msg)],
        ),
        MessageEntryV::Error { err_msg } => FrameV::Array(
            seq![FrameV::Simple("MessageEntry::Error"@), FrameV::Simple(err_msg)],
        ),
    }
}

/// The reply that a frame holds, if it holds one.
pub open spec fn message_of_frame(f: FrameV) -> Option<MessageEntryV> {
    match f {
        FrameV::Array(parts) => if parts.len() == 2 && frame_equals_str(
            parts[0],
            "MessageEntry::Success"@,
        ) {
            Some(MessageEntryV::Success { msg: frame_text(parts[1]) })
        } else if parts.len() == 2 && frame_equals_str(parts[0], "MessageEntry::Error"@) {
            Some(MessageEntryV::Error { err_msg: frame_text(parts[1]) })
        } else {
            None
        },
        _ => None,
    }
}

impl FrameCast for MessageEntry {
    fn to_frame(&self) -> (r: Frame)
        ensures
            r@ == message_frame(self@),
    {
        match self {
            MessageEntry::Success { msg } => array2(
                simple("MessageEntry::Success"),
                Frame::Simple(msg.clone()),
            ),
            MessageEntry::Error { err_msg } => array2(
                simple("MessageEntry::Error"),
                Frame::Simple(err_msg.clone()),
            ),
        }
    }

    fn from_frame(frame: &Frame) -> (r: Result<Box<MessageEntry>, Error>)
        ensures
            match r {
                Ok(m) => message_of_frame(frame@) == Some(m@),
                Err(e) => message_of_frame(frame@) is None && e.message@ == unexpected_frame_text(
                    frame@,
                ),
            },
    {
        match frame {
            Frame::Array(parts) => {
                proof {
                    lemma_frames_view(parts@, parts@.len() as int);
                }
                if parts.len() == 2 && parts[0].equals_str("MessageEntry::Success") {
                    Ok(Box::new(MessageEntry::Success { msg: parts[1].to_text() }))
                } else if parts.len() == 2 && parts[0].equals_str("MessageEntry::Error") {
                    Ok(Box::new(MessageEntry::Error { err_msg: parts[1].to_text() }))
                } else {
                    Err(frame.to_error())
                }
            },
            _ => Err(frame.to_error()),
        }
    }
}

} // verus!

verus! {

// ---------------------------------------------------------------- DataEntry

/// A key and its value, as a server hands it to a user.
#[derive(Clone, Debug, PartialEq, Eq)]
pub enum DataEntry {
    KeyValue { key: String, value: Vec<u8> },
}

pub enum DataEntryV {
    KeyValue { key: Seq<char>, value: Seq<u8> },
}

impl View for DataEntry {
    type V = DataEntryV;

    open spec fn view(&self) -> DataEntryV {
        match self {
            DataEntry::KeyValue { key, value } => DataEntryV::KeyValue { key: key@, value: value@ },
        }
    }
}

/// The frame of a key and value: the tag, the key as text, the value as
/// bytes.
pub open spec fn data_frame(d: DataEntryV) -> FrameV {
    match d {
        DataEntryV::KeyValue { key, value } => FrameV::Array(
            seq![FrameV::Simple("DataEntry::KeyValue"@), FrameV::Simple(key), FrameV::Bulk(value)],
        ),
    }
}

/// The key and value that a frame holds, if it holds them: the value is the
/// UTF-8 bytes of the text of the third part.
pub open spec fn data_of_frame(f: FrameV) -> Option<DataEntryV> {
    match f {
        FrameV::Array(parts) => if parts.len() == 3 && frame_equals_str(
            parts[0],
            "DataEntry::KeyValue"@,
        ) {
            Some(
                DataEntryV::KeyValue {
                    key: frame_text(parts[1]),
                    value: frame_text_bytes(parts[2]),
                },
            )
        } else {
            None
        },
        _ => None,
    }
}

impl FrameCast for DataEntry {
    fn to_frame(&self) -> (r: Frame)
        ensures
            r@ == data_frame(self@),
    {
        match self {
            DataEntry::KeyValue { key, value } => {
                let v = value.clone();
                assert(v@ =~= value@);
                array3(simple("DataEntry::KeyValue"), Frame::Simple(key.clone()), Frame::Bulk(v))
            },
        }
    }

    fn from_frame(frame: &Frame) -> (r: Result<Box<DataEntry>, Error>)
        ensures
            match r {
                Ok(d) => data_of_frame(frame@) == Some(d@),
                Err(e) => data_of_frame(frame@) is None && e.message@ == unexpected_frame_text(
                    frame@,
                ),
            },
    {
        match frame {
            Frame::Array(parts) => {
                proof {
                    lemma_frames_view(parts@, parts@.len() as int);
                }
                if parts.len() == 3 && parts[0].equals_str("DataEntry::KeyValue") {
                    Ok(
                        Box::new(
                            DataEntry::KeyValue {
                                key: parts[1].to_text(),
                                value: text_bytes(&parts[2]),
                            },
                        ),
                    )
                } else {
                    Err(frame.to_error())
                }
            },
            _ => Err(frame.to_error()),
        }
    }
}

// ---------------------------------------------------------------- CommandEntry

/// A command of a user to a server.
#[derive(Clone, Debug, PartialEq, Eq)]
pub enum CommandEntry {
    SetValue { key: String, value: Vec<u8> },
    GetValue { key: String },
    Empty,
}

pub enum CommandEntryV {
    SetValue { key: Seq<char>, value: Seq<u8> },
    GetValue { key: Seq<char> },
    Empty,
}

impl View for CommandEntry {
    type V = CommandEntryV;

    open spec fn view(&self) -> CommandEntryV {
        match self {
            CommandEntry::SetValue { key, value } => CommandEntryV::SetValue {
                key: key@,
                value: value@,
            },
            CommandEntry::GetValue { key } => CommandEntryV::GetValue { key: key@ },
            CommandEntry::Empty => CommandEntryV::Empty,
        }
    }
}

/// The frame of a command. A get is written as its tag, its tag again,
/// then the key; the empty command as an empty array.
pub open spec fn command_frame(c: CommandEntryV) -> FrameV {
    match c {
        CommandEntryV::SetValue { key, value } => FrameV::Array(
            seq![
                FrameV::Simple("CommandEntry::SetValue"@),
                FrameV::Simple(key),
                FrameV::Bulk(value),
            ],
        ),
        CommandEntryV::GetValue { key } => FrameV::Array(
            seq![
                FrameV::Simple("CommandEntry::GetValue"@),
                FrameV::Simple("CommandEntry::GetValue"@),
                FrameV::Simple(key),
            ],
        ),
        CommandEntryV::Empty => FrameV::Array(Seq::empty()),
    }
}

/// The command that a frame holds, if it holds one. Both kinds take three
/// parts; the key of either is the text of the second part.
pub open spec fn command_of_frame(f: FrameV) -> Option<CommandEntryV> {
    match f {
        FrameV::Array(parts) => if parts.len() == 3 && frame_equals_str(
            parts[0],
            "CommandEntry::GetValue"@,
        ) {
            Some(CommandEntryV::GetValue { key: frame_text(parts[1]) })
        } else if parts.len() == 3 && frame_equals_str(parts[0], "CommandEntry::SetValue"@) {
            Some(
                CommandEntryV::SetValue {
                    key: frame_text(parts[1]),
                    value: frame_text_bytes(parts[2]),
                },
            )
        } else {
            None
        },
        _ => None,
    }
}

impl FrameCast for CommandEntry {
    fn to_frame(&self) -> (r: Frame)
        ensures
            r@ == command_frame(self@),
    {
        match self {
            CommandEntry::SetValue { key, value } => {
                let v = value.clone();
                assert(v@ =~= value@);
                array3(
                    simple("CommandEntry::SetValue"),
                    Frame::Simple(key.clone()),
                    Frame::Bulk(v),
                )
            },
            CommandEntry::GetValue { key } => array3(
                simple("CommandEntry::GetValue"),
                simple("CommandEntry::GetValue"),
                Frame::Simple(key.clone()),
            ),
            CommandEntry::Empty => {
                let v: Vec<Frame> = Vec::new();
                proof {
                    lemma_frames_view(v@, 0);
                }
                assert(frames_view(v@, 0) =~= Seq::<FrameV>::empty());
                Frame::Array(v)
            },
        }
    }

    fn from_frame(frame: &Frame) -> (r: Result<Box<CommandEntry>, Error>)
        ensures
            match r {
                Ok(c) => command_of_frame(frame@) == Some(c@),
                Err(e) => command_of_frame(frame@) is None && e.message@ == unexpected_frame_text(
                    frame@,
                ),
            },
    {
        match frame {
            Frame::Array(parts) => {
                proof {
                    lemma_frames_view(parts@, parts@.len() as int);
                }
                if parts.len() == 3 && parts[0].equals_str("CommandEntry::GetValue") {
                    Ok(Box::new(CommandEntry::GetValue { key: parts[1].to_text() }))
                } else if parts.len() == 3 && parts[0].equals_str("CommandEntry::SetValue") {
                    Ok(
                        Box::new(
                            CommandEntry::SetValue {
                                key: parts[1].to_text(),
                                value: text_bytes(&parts[2]),
                            },
                        ),
                    )
                } else {
                    Err(frame.to_error())
                }
            },
            _ => Err(frame.to_error()),
        }
    }
}

} // verus!

verus! {

// ---------------------------------------------------------------- LogEntry

/// An entry of the replicated log. A read or a write of a linearizable
/// operation carries its operation id: the address of the node that issued
/// it and that node's timestamp.
#[derive(Debug, PartialEq, Eq)]
pub enum LogEntry {
    SetValue { key: String, value: Vec<u8> },
    LINRead { opid: (String, u64), key: String, value: Option<Vec<u8>> },
    LINWrite { opid: (String, u64), key: String, value: Vec<u8> },
    Compact,
}

#[allow(inconsistent_fields)]
pub enum LogEntryV {
    SetValue { key: Seq<char>, value: Seq<u8> },
    LINRead { opid: (Seq<char>, u64), key: Seq<char>, value: Option<Seq<u8>> },
    LINWrite { opid: (Seq<char>, u64), key: Seq<char>, value: Seq<u8> },
    Compact,
}

pub open spec fn opt_bytes_view(v: Option<Vec<u8>>) -> Option<Seq<u8>> {
    match v {
        Some(b) => Some(b@),
        None => None,
    }
}

impl View for LogEntry {
    type V = LogEntryV;

    open spec fn view(&self) -> LogEntryV {
        match self {
            LogEntry::SetValue { key, value } => LogEntryV::SetValue { key: key@, value: value@ },
            LogEntry::LINRead { opid, key, value } => LogEntryV::LINRead {
                opid: (opid.0@, opid.1),
                key: key@,
                value: opt_bytes_view(*value),
            },
            LogEntry::LINWrite { opid, key, value } => LogEntryV::LINWrite {
                opid: (opid.0@, opid.1),
                key: key@,
                value: value@,
            },
            LogEntry::Compact => LogEntryV::Compact,
        }
    }
}

/// A copy of a byte vector.
pub fn copy_bytes(v: &Vec<u8>) -> (r: Vec<u8>)
    ensures
        r@ == v@,
{
    let r = v.clone();
    assert(r@ =~= v@);
    r
}

/// A copy of an optional byte vector.
pub fn copy_opt_bytes(v: &Option<Vec<u8>>) -> (r: Option<Vec<u8>>)
    ensures
        opt_bytes_view(r) == opt_bytes_view(*v),
{
    match v {
        Some(b) => Some(copy_bytes(b)),
        None => None,
    }
}

/// Whether two optional byte vectors hold the same bytes.
pub fn opt_bytes_equal(a: &Option<Vec<u8>>, b: &Option<Vec<u8>>) -> (r: bool)
    ensures
        r == (opt_bytes_view(*a) == opt_bytes_view(*b)),
{
    match (a, b) {
        (Some(x), Some(y)) => crate::frame::bytes_equal(x, y),
        (None, None) => true,
        _ => false,
    }
}

impl LogEntry {
    /// A copy of the entry.
    pub fn copy(&self) -> (r: LogEntry)
        ensures
            r@ == self@,
    {
        match self {
            LogEntry::SetValue { key, value } => LogEntry::SetValue {
                key: key.clone(),
                value: copy_bytes(value),
            },
            LogEntry::LINRead { opid, key, value } => LogEntry::LINRead {
                opid: (opid.0.clone(), opid.1),
                key: key.clone(),
                value: copy_opt_bytes(value),
            },
            LogEntry::LINWrite { opid, key, value } => LogEntry::LINWrite {
                opid: (opid.0.clone(), opid.1),
                key: key.clone(),
                value: copy_bytes(value),
            },
            LogEntry::Compact => LogEntry::Compact,
        }
    }

    /// Whether two entries are the same entry.
    pub fn same(&self, other: &LogEntry) -> (r: bool)
        ensures
            r == (self@ == other@),
    {
        match (self, other) {
            (
                LogEntry::SetValue { key: k1, value: v1 },
                LogEntry::SetValue { key: k2, value: v2 },
            ) => *k1 == *k2 && crate::frame::bytes_equal(v1, v2),
            (
                LogEntry::LINRead { opid: o1, key: k1, value: v1 },
                LogEntry::LINRead { opid: o2, key: k2, value: v2 },
            ) => o1.0 == o2.0 && o1.1 == o2.1 && *k1 == *k2 && opt_bytes_equal(v1, v2),
            (
                LogEntry::LINWrite { opid: o1, key: k1, value: v1 },
                LogEntry::LINWrite { opid: o2, key: k2, value: v2 },
            ) => o1.0 == o2.0 && o1.1 == o2.1 && *k1 == *k2 && crate::frame::bytes_equal(v1, v2),
            (LogEntry::Compact, LogEntry::Compact) => true,
            _ => false,
        }
    }
}

impl Clone for LogEntry {
    fn clone(&self) -> (r: LogEntry)
        ensures
            r@ == self@,
    {
        self.copy()
    }
}

/// The frame of a value serialized as `json` under the tag `tag`: the tag,
/// then the serialized bytes.
pub open spec fn tagged_frame(tag: Seq<char>, json: Seq<u8>) -> FrameV {
    FrameV::Array(seq![FrameV::Simple(tag), FrameV::Bulk(json)])
}

/// The serialized bytes that a frame holds under the tag `tag`, if it holds
/// them.
pub open spec fn tagged_json(tag: Seq<char>, f: FrameV) -> Option<Seq<u8>> {
    match f {
        FrameV::Array(parts) => if parts.len() == 2 && frame_equals_str(parts[0], tag) {
            match parts[1] {
                FrameV::Bulk(b) => Some(b),
                _ => None,
            }
        } else {
            None
        },
        _ => None,
    }
}

/// The frame of a value serialized as `json` under the tag `tag`.
pub fn frame_of_tagged_json(tag: &str, json: Vec<u8>) -> (r: Frame)
    ensures
        r@ == tagged_frame(tag@, json@),
{
    array2(simple(tag), Frame::Bulk(json))
}

/// The serialized bytes that `frame` holds under the tag `tag`.
pub fn tagged_json_of_frame(tag: &str, frame: &Frame) -> (r: Result<Vec<u8>, Error>)
    ensures
        match r {
            Ok(json) => tagged_json(tag@, frame@) == Some(json@),
            Err(e) => tagged_json(tag@, frame@) is None && e.message@ == unexpected_frame_text(
                frame@,
            ),
        },
{
    match frame {
        Frame::Array(parts) => {
            proof {
                lemma_frames_view(parts@, parts@.len() as int);
            }
            if parts.len() == 2 && parts[0].equals_str(tag) {
                match &parts[1] {
                    Frame::Bulk(b) => Ok(copy_bytes(b)),
                    _ => Err(frame.to_error()),
                }
            } else {
                Err(frame.to_error())
            }
        },
        _ => Err(frame.to_error()),
    }
}

/// The frame of a log entry whose serialized form is `json`.
pub open spec fn log_entry_frame(json: Seq<u8>) -> FrameV {
    tagged_frame("LogEntry"@, json)
}

/// The serialized log entry that a frame holds, if it holds one.
pub open spec fn log_entry_json(f: FrameV) -> Option<Seq<u8>> {
    tagged_json("LogEntry"@, f)
}

impl LogEntry {
    /// The frame of a log entry, given the entry serialized as JSON.
    pub fn frame_of_json(json: Vec<u8>) -> (r: Frame)
        ensures
            r@ == log_entry_frame(json@),
    {
        frame_of_tagged_json("LogEntry", json)
    }

    /// The serialized log entry that `frame` holds.
    pub fn json_of_frame(frame: &Frame) -> (r: Result<Vec<u8>, Error>)
        ensures
            match r {
                Ok(json) => log_entry_json(frame@) == Some(json@),
                Err(e) => log_entry_json(frame@) is None && e.message@ == unexpected_frame_text(
                    frame@,
                ),
            },
    {
        tagged_json_of_frame("LogEntry", frame)
    }
}

} // verus!

verus! {

/// Reading back the frame of a reply gives the reply.
pub proof fn lemma_message_roundtrip(m: MessageEntryV)
    ensures
        message_of_frame(message_frame(m)) == Some(m),
{
    reveal_strlit("MessageEntry::Success");
    reveal_strlit("MessageEntry::Error");
    assert("MessageEntry::Success"@.len() != "MessageEntry::Error"@.len());
}

/// Reading back the frame of a key and value gives them back, where the
/// value is valid UTF-8 (the value is read back through its text).
pub proof fn lemma_data_roundtrip(d: DataEntryV)
    requires
        valid_utf8(d->KeyValue_value),
    ensures
        data_of_frame(data_frame(d)) == Some(d),
{
    vstd::utf8::decode_utf8_encode_utf8(d->KeyValue_value);
}

/// Reading back the frame of a set command gives the command, where its
/// value is valid UTF-8; reading back that of a get command gives the
/// command only where its key is the get tag itself, for the key is read
/// from the second part, which holds the tag.
pub proof fn lemma_command_roundtrip(c: CommandEntryV)
    requires
        c is SetValue ==> valid_utf8(c->SetValue_value),
        c is GetValue ==> c->GetValue_key == "CommandEntry::GetValue"@,
        !(c is Empty),
    ensures
        command_of_frame(command_frame(c)) == Some(c),
{
    reveal_strlit("CommandEntry::GetValue");
    reveal_strlit("CommandEntry::SetValue");
    assert("CommandEntry::GetValue"@[14] != "CommandEntry::SetValue"@[14]);
    if c is SetValue {
        vstd::utf8::decode_utf8_encode_utf8(c->SetValue_value);
    }
}

/// Reading back the frame of a get command gives a get of the tag, whatever
/// key it was written with.
pub proof fn lemma_command_get_reads_tag(key: Seq<char>)
    ensures
        command_of_frame(command_frame(CommandEntryV::GetValue { key })) == Some(
            CommandEntryV::GetValue { key: "CommandEntry::GetValue"@ },
        ),
{
}

/// The empty command is written as a frame that reads back as no command.
pub proof fn lemma_command_empty_unreadable()
    ensures
        command_of_frame(command_frame(CommandEntryV::Empty)) is None,
{
}

/// Reading back the frame of a serialized log entry gives the serialized
/// bytes.
pub proof fn lemma_log_entry_roundtrip(json: Seq<u8>)
    ensures
        log_entry_json(log_entry_frame(json)) == Some(json),
{
}

} // verus!

verus! {

/// A key and value are framed as the tag, the key as a simple frame, then
/// the value as a bulk frame; reading a frame of that layout gives the key
/// from the second part and the value from the third.
pub proof fn lemma_data_frame_layout(key: Seq<char>, value: Seq<u8>)
    requires
        valid_utf8(value),
    ensures
        data_frame(DataEntryV::KeyValue { key, value }) == FrameV::Array(
            seq![FrameV::Simple("DataEntry::KeyValue"@), FrameV::Simple(key), FrameV::Bulk(value)],
        ),
        data_of_frame(
            FrameV::Array(
                seq![
                    FrameV::Simple("DataEntry::KeyValue"@),
                    FrameV::Simple(key),
                    FrameV::Bulk(value),
                ],
            ),
        ) == Some(DataEntryV::KeyValue { key, value }),
{
    vstd::utf8::decode_utf8_encode_utf8(value);
}

/// A set is framed as its tag, the key as a simple frame, then the value as
/// a bulk frame; a get as its tag twice, then the key. Reading a frame
/// under either tag takes the key from the second part, and for a set the
/// value from the third.
pub proof fn lemma_command_frame_layout(key: Seq<char>, value: Seq<u8>, third: FrameV)
    requires
        valid_utf8(value),
    ensures
        command_frame(CommandEntryV::SetValue { key, value }) == FrameV::Array(
            seq![
                FrameV::Simple("CommandEntry::SetValue"@),
                FrameV::Simple(key),
                FrameV::Bulk(value),
            ],
        ),
        command_frame(CommandEntryV::GetValue { key }) == FrameV::Array(
            seq![
                FrameV::Simple("CommandEntry::GetValue"@),
                FrameV::Simple("CommandEntry::GetValue"@),
                FrameV::Simple(key),
            ],
        ),
        command_of_frame(
            FrameV::Array(
                seq![
                    FrameV::Simple("CommandEntry::SetValue"@),
                    FrameV::Simple(key),
                    FrameV::Bulk(value),
                ],
            ),
        ) == Some(CommandEntryV::SetValue { key, value }),
        command_of_frame(
            FrameV::Array(seq![FrameV::Simple("CommandEntry::GetValue"@), FrameV::Simple(key), third]),
        ) == Some(CommandEntryV::GetValue { key }),
{
    vstd::utf8::decode_utf8_encode_utf8(value);
    reveal_strlit("CommandEntry::GetValue");
    reveal_strlit("CommandEntry::SetValue");
    assert("CommandEntry::GetValue"@[14] != "CommandEntry::SetValue"@[14]);
}

/// A reply is framed as its tag, then its text as a simple frame; reading a
/// frame of that layout gives the text of the second part.
pub proof fn lemma_message_frame_layout(text: Seq<char>)
    ensures
        message_frame(MessageEntryV::Success { msg: text }) == FrameV::Array(
            seq![FrameV::Simple("MessageEntry::Success"@), FrameV::Simple(text)],
        ),
        message_frame(MessageEntryV::Error { err_msg: text }) == FrameV::Array(
            seq![FrameV::Simple("MessageEntry::Error"@), FrameV::Simple(text)],
        ),
        message_of_frame(
            FrameV::Array(seq![FrameV::Simple("MessageEntry::Success"@), FrameV::Simple(text)]),
        ) == Some(MessageEntryV::Success { msg: text }),
        message_of_frame(
            FrameV::Array(seq![FrameV::Simple("MessageEntry::Error"@), FrameV::Simple(text)]),
        ) == Some(MessageEntryV::Error { err_msg: text }),
{
    reveal_strlit("MessageEntry::Success");
    reveal_strlit("MessageEntry::Error");
    assert("MessageEntry::Success"@.len() != "MessageEntry::Error"@.len());
}

} // verus!
