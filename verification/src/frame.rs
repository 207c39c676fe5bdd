//! Frames: the values exchanged on a connection.
use vstd::prelude::*;
use crate::text::{decimal, u64_text, bytes_debug, bytes_debug_text, utf8_decode};
use vstd::utf8::{valid_utf8, decode_utf8, encode_utf8};
use vstd::string::*;

verus! {

/// A frame of the wire protocol.
#[derive(Debug, PartialEq, Eq)]
pub enum Frame {
    Simple(String),
    Error(String),
    Integer(u64),
    Bulk(Vec<u8>),
    Null,
    Array(Vec<Frame>),
}

/// The mathematical value of a frame.
pub enum FrameV {
    Simple(Seq<char>),
    Error(Seq<char>),
    Integer(u64),
    Bulk(Seq<u8>),
    Null,
    Array(Seq<FrameV>),
}

pub open spec fn frame_view(f: Frame) -> FrameV
    decreases f, 0int,
{
    match f {
        Frame::Simple(s) => FrameV::Simple(s@),
        Frame::Error(s) => FrameV::Error(s@),
        Frame::Integer(n) => FrameV::Integer(n),
        Frame::Bulk(b) => FrameV::Bulk(b@),
        Frame::Null => FrameV::Null,
        Frame::Array(parts) => FrameV::Array(frames_view(parts@, parts@.len() as int)),
    }
}

/// The views of the first `n` frames of `parts`.
pub open spec fn frames_view(parts: Seq<Frame>, n: int) -> Seq<FrameV>
    decreases parts, n,
{
    if n <= 0 || n > parts.len() {
        Seq::empty()
    } else {
        frames_view(parts, n - 1).push(frame_view(parts[n - 1]))
    }
}

impl View for Frame {
    type V = FrameV;

    open spec fn view(&self) -> FrameV {
        frame_view(*self)
    }
}

} // verus!

verus! {

/// The text of a frame, as its `Display` rendering writes it.
pub open spec fn frame_text(f: FrameV) -> Seq<char>
    decreases f, 0int,
{
    match f {
        FrameV::Simple(s) => s,
        FrameV::Error(m) => seq!['e', 'r', 'r', 'o', 'r', ':', ' '] + m,
        FrameV::Integer(n) => decimal(n as nat),
        FrameV::Bulk(b) => if valid_utf8(b) {
            decode_utf8(b)
        } else {
            bytes_debug(b)
        },
        FrameV::Null => seq!['(', 'n', 'i', 'l', ')'],
        FrameV::Array(parts) => joined_text(parts, parts.len() as int),
    }
}

/// The texts of the first `n` parts, separated by single spaces.
pub open spec fn joined_text(parts: Seq<FrameV>, n: int) -> Seq<char>
    decreases parts, n,
{
    if n <= 0 || n > parts.len() {
        Seq::empty()
    } else if n == 1 {
        frame_text(parts[0])
    } else {
        joined_text(parts, n - 1) + seq![' '] + frame_text(parts[n - 1])
    }
}

pub proof fn lemma_frames_view(parts: Seq<Frame>, n: int)
    requires
        0 <= n <= parts.len(),
    ensures
        frames_view(parts, n).len() == n,
        forall|i: int| 0 <= i < n ==> #[trigger] frames_view(parts, n)[i] == frame_view(parts[i]),
    decreases n,
{
    if n > 0 {
        lemma_frames_view(parts, n - 1);
    }
}

impl Frame {
    /// The text of the frame (its `Display` rendering).
    pub fn to_text(&self) -> (r: String)
        ensures
            r@ == frame_text(self@),
        decreases self,
    {
        match self {
            Frame::Simple(s) => s.clone(),
            Frame::Error(m) => {
                let mut r = "error: ".to_owned();
                r.append(m.as_str());
                proof {
                    reveal_strlit("error: ");
                }
                assert(r@ =~= frame_text(self@));
                r
            },
            Frame::Integer(n) => u64_text(*n),
            Frame::Bulk(b) => {
                let copy = b.clone();
                assert(copy@ =~= b@);
                match utf8_decode(copy) {
                    Some(s) => s,
                    None => bytes_debug_text(b),
                }
            },
            Frame::Null => {
                let r = "(nil)".to_owned();
                proof {
                    reveal_strlit("(nil)");
                }
                assert(r@ =~= frame_text(self@));
                r
            },
            Frame::Array(parts) => {
                let ghost pv = frames_view(parts@, parts@.len() as int);
                proof {
                    lemma_frames_view(parts@, parts@.len() as int);
                }
                let mut r = String::new();
                let mut i: usize = 0;
                while i < parts.len()
                    invariant
                        i <= parts.len(),
                        *self == Frame::Array(*parts),
                        pv == frames_view(parts@, parts@.len() as int),
                        pv.len() == parts@.len(),
                        forall|j: int| 0 <= j < parts@.len() ==> #[trigger] pv[j] == frame_view(parts@[j]),
                        r@ == joined_text(pv, i as int),
                    decreases parts.len() - i,
                {
                    proof {
                        let ghost v = (*self)->Array_0;
                        assert(decreases_to!(*self => (*self)->Array_0));
                        assert(decreases_to!(v => v@));
                        assert(decreases_to!(v@ => v@[i as int]));
                        assert(decreases_to!(*self => parts@[i as int]));
                    }
                    let t = parts[i].to_text();
                    if i > 0 {
                        r.append(" ");
                        proof {
                            reveal_strlit(" ");
                        }
                    }
                    r.append(t.as_str());
                    assert(r@ =~= joined_text(pv, i + 1));
                    i = i + 1;
                }
                r
            },
        }
    }
}

} // verus!

verus! {

/// Whether a frame equals a string: a simple frame holding that string, or
/// a bulk frame holding its UTF-8 bytes.
pub open spec fn frame_equals_str(f: FrameV, s: Seq<char>) -> bool {
    match f {
        FrameV::Simple(t) => t == s,
        FrameV::Bulk(b) => b == encode_utf8(s),
        _ => false,
    }
}

/// The text of the error that a frame of an unexpected shape gives.
pub open spec fn unexpected_frame_text(f: FrameV) -> Seq<char> {
    "unexpected frame: "@ + frame_text(f)
}

/// An error of the library, with its message.
#[derive(Debug)]
pub struct Error {
    pub message: String,
}

/// Whether two byte vectors hold the same bytes.
pub fn bytes_equal(a: &Vec<u8>, b: &Vec<u8>) -> (r: bool)
    ensures
        r == (a@ == b@),
{
    if a.len() != b.len() {
        return false;
    }
    let mut i: usize = 0;
    while i < a.len()
        invariant
            i <= a.len(),
            a.len() == b.len(),
            forall|j: int| 0 <= j < i ==> a@[j] == b@[j],
        decreases a.len() - i,
    {
        if a[i] != b[i] {
            return false;
        }
        i = i + 1;
    }
    assert(a@ =~= b@);
    true
}

impl Frame {
    /// Whether the frame equals the string `s`.
    pub fn equals_str(&self, s: &str) -> (r: bool)
        ensures
            r == frame_equals_str(self@, s@),
    {
        match self {
            Frame::Simple(t) => *t == s.to_owned(),
            Frame::Bulk(b) => {
                let bytes = s.as_bytes_vec();
                bytes_equal(b, &bytes)
            },
            _ => false,
        }
    }

    /// The error that this frame gives where a frame of another shape was
    /// expected.
    pub fn to_error(&self) -> (e: Error)
        ensures
            e.message@ == unexpected_frame_text(self@),
    {
        let mut message = "unexpected frame: ".to_owned();
        let t = self.to_text();
        message.append(t.as_str());
        Error { message }
    }
}

} // verus!

verus! {

/// An array frame of two parts.
pub fn array2(a: Frame, b: Frame) -> (r: Frame)
    ensures
        r@ == FrameV::Array(seq![a@, b@]),
{
    let v = vec![a, b];
    proof {
        lemma_frames_view(v@, 2);
        assert(frames_view(v@, 2) =~= seq![a@, b@]);
    }
    Frame::Array(v)
}

/// An array frame of three parts.
pub fn array3(a: Frame, b: Frame, c: Frame) -> (r: Frame)
    ensures
        r@ == FrameV::Array(seq![a@, b@, c@]),
{
    let v = vec![a, b, c];
    proof {
        lemma_frames_view(v@, 3);
        assert(frames_view(v@, 3) =~= seq![a@, b@, c@]);
    }
    Frame::Array(v)
}

/// A simple frame holding the text `s`.
pub fn simple(s: &str) -> (r: Frame)
    ensures
        r@ == FrameV::Simple(s@),
{
    Frame::Simple(s.to_owned())
}

} // verus!
