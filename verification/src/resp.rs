//! The wire format of frames: a type byte, a line ended by CR LF, and for
//! bulk frames and arrays, what follows the line.
use vstd::prelude::*;
use vstd::utf8::{valid_utf8, decode_utf8, encode_utf8};
use crate::frame::{Frame, FrameV, frame_view, frames_view, lemma_frames_view};
use crate::text::utf8_decode;

verus! {

pub open spec fn crlf() -> Seq<u8> {
    seq![13u8, 10u8]
}

/// The ASCII decimal digits of `n`.
pub open spec fn ascii_decimal(n: nat) -> Seq<u8>
    decreases n,
{
    if n < 10 {
        seq![(48 + n) as u8]
    } else {
        ascii_decimal(n / 10).push((48 + n % 10) as u8)
    }
}

/// The bytes of a frame on the wire.
pub open spec fn encode_frame(f: FrameV) -> Seq<u8>
    decreases f, 0int,
{
    match f {
        FrameV::Simple(s) => seq![43u8] + encode_utf8(s) + crlf(),
        FrameV::Error(s) => seq![45u8] + encode_utf8(s) + crlf(),
        FrameV::Integer(n) => seq![58u8] + ascii_decimal(n as nat) + crlf(),
        FrameV::Null => seq![36u8, 45u8, 49u8, 13u8, 10u8],
        FrameV::Bulk(b) => seq![36u8] + ascii_decimal(b.len()) + crlf() + b + crlf(),
        FrameV::Array(parts) => seq![42u8] + ascii_decimal(parts.len()) + crlf() + encode_frames(
            parts,
            parts.len() as int,
        ),
    }
}

/// The bytes of the first `n` frames of `parts`, one after the other.
pub open spec fn encode_frames(parts: Seq<FrameV>, n: int) -> Seq<u8>
    decreases parts, n,
{
    if n <= 0 || n > parts.len() {
        Seq::empty()
    } else {
        encode_frames(parts, n - 1) + encode_frame(parts[n - 1])
    }
}

/// The ASCII decimal digits of `n`.
pub fn decimal_bytes(n: u64) -> (r: Vec<u8>)
    ensures
        r@ == ascii_decimal(n as nat),
    decreases n,
{
    if n < 10 {
        vec![(48 + n) as u8]
    } else {
        let mut v = decimal_bytes(n / 10);
        v.push((48 + n % 10) as u8);
        v
    }
}

fn push_all(out: &mut Vec<u8>, bytes: &Vec<u8>)
    ensures
        final(out)@ == old(out)@ + bytes@,
{
    let mut i: usize = 0;
    let ghost start = out@;
    while i < bytes.len()
        invariant
            i <= bytes@.len(),
            out@ == start + bytes@.subrange(0, i as int),
        decreases bytes.len() - i,
    {
        out.push(bytes[i]);
        assert(bytes@.subrange(0, i + 1) =~= bytes@.subrange(0, i as int).push(bytes@[i as int]));
        i = i + 1;
    }
    assert(bytes@.subrange(0, bytes@.len() as int) =~= bytes@);
}

impl Frame {
    /// Writes the frame on the end of `out`.
    pub fn write_to(&self, out: &mut Vec<u8>)
        ensures
            final(out)@ == old(out)@ + encode_frame(self@),
        decreases self,
    {
        let ghost start = out@;
        match self {
            Frame::Simple(s) => {
                out.push(43u8);
                push_all(out, &s.as_str().as_bytes_vec());
                out.push(13u8);
                out.push(10u8);
            },
            Frame::Error(s) => {
                out.push(45u8);
                push_all(out, &s.as_str().as_bytes_vec());
                out.push(13u8);
                out.push(10u8);
            },
            Frame::Integer(n) => {
                out.push(58u8);
                push_all(out, &decimal_bytes(*n));
                out.push(13u8);
                out.push(10u8);
            },
            Frame::Null => {
                push_all(out, &vec![36u8, 45u8, 49u8, 13u8, 10u8]);
            },
            Frame::Bulk(b) => {
                out.push(36u8);
                push_all(out, &decimal_bytes(b.len() as u64));
                out.push(13u8);
                out.push(10u8);
                push_all(out, b);
                out.push(13u8);
                out.push(10u8);
            },
            Frame::Array(parts) => {
                let ghost pv = frames_view(parts@, parts@.len() as int);
                proof {
                    lemma_frames_view(parts@, parts@.len() as int);
                }
                out.push(42u8);
                push_all(out, &decimal_bytes(parts.len() as u64));
                out.push(13u8);
                out.push(10u8);
                let ghost head = out@;
                let mut i: usize = 0;
                while i < parts.len()
                    invariant
                        i <= parts@.len(),
                        *self == Frame::Array(*parts),
                        pv == frames_view(parts@, parts@.len() as int),
                        pv.len() == parts@.len(),
                        forall|j: int| 0 <= j < parts@.len() ==> #[trigger] pv[j] == frame_view(parts@[j]),
                        out@ == head + encode_frames(pv, i as int),
                    decreases parts.len() - i,
                {
                    proof {
                        let ghost v = (*self)->Array_0;
                        assert(decreases_to!(*self => (*self)->Array_0));
                        assert(decreases_to!(v => v@));
                        assert(decreases_to!(v@ => v@[i as int]));
                    }
                    parts[i].write_to(out);
                    i = i + 1;
                }
            },
        }
        assert(out@ =~= start + encode_frame(self@));
    }

    /// The bytes of the frame on the wire.
    pub fn serialize(&self) -> (r: Vec<u8>)
        ensures
            r@ == encode_frame(self@),
    {
        let mut out: Vec<u8> = Vec::new();
        self.write_to(&mut out);
        assert(out@ =~= encode_frame(self@));
        out
    }
}

} // verus!

verus! {

/// The outcome of reading one frame: the frame and the position after it,
/// or that more bytes are needed, or that the bytes are no frame.
pub enum Parsed {
    Done(FrameV, int),
    Incomplete,
    Invalid,
}

/// The outcome of reading several frames one after the other.
pub enum ParsedMany {
    Done(Seq<FrameV>, int),
    Incomplete,
    Invalid,
}

/// The position of the first CR LF at or after `pos`.
pub open spec fn line_end(buf: Seq<u8>, pos: int) -> Option<int>
    decreases buf.len() - pos,
{
    if pos < 0 || pos + 1 >= buf.len() {
        None
    } else if buf[pos] == 13 && buf[pos + 1] == 10 {
        Some(pos)
    } else {
        line_end(buf, pos + 1)
    }
}

/// The value of ASCII decimal digits.
pub open spec fn ascii_digits_value(d: Seq<u8>) -> int
    decreases d.len(),
{
    if d.len() == 0 {
        0
    } else {
        ascii_digits_value(d.drop_last()) * 10 + (d.last() - 48)
    }
}

/// The number that a line writes: one or more ASCII digits whose value fits
/// in 64 bits.
pub open spec fn line_number(l: Seq<u8>) -> Option<u64> {
    if l.len() > 0 && (forall|i: int| 0 <= i < l.len() ==> 48 <= #[trigger] l[i] <= 57)
        && ascii_digits_value(l) <= u64::MAX {
        Some(ascii_digits_value(l) as u64)
    } else {
        None
    }
}

/// Reads the frame at `pos`. A simple or error frame is its line, which must
/// be UTF-8; an integer is its line as a number; `$-1` is the null frame;
/// a bulk frame is its length, then that many bytes and CR LF; an array
/// is its count, then that many frames.
pub open spec fn parse_frame(buf: Seq<u8>, pos: int) -> Parsed
    decreases buf.len() - pos, 0int,
{
    if pos < 0 || pos >= buf.len() {
        Parsed::Incomplete
    } else {
        let t = buf[pos];
        if t != 43 && t != 45 && t != 58 && t != 36 && t != 42 {
            Parsed::Invalid
        } else {
            match line_end(buf, pos + 1) {
                None => Parsed::Incomplete,
                Some(e) => {
                    let line = buf.subrange(pos + 1, e);
                    let next = e + 2;
                    if t == 43 || t == 45 {
                        if valid_utf8(line) {
                            if t == 43 {
                                Parsed::Done(FrameV::Simple(decode_utf8(line)), next)
                            } else {
                                Parsed::Done(FrameV::Error(decode_utf8(line)), next)
                            }
                        } else {
                            Parsed::Invalid
                        }
                    } else if t == 58 {
                        match line_number(line) {
                            Some(n) => Parsed::Done(FrameV::Integer(n), next),
                            None => Parsed::Invalid,
                        }
                    } else if t == 36 && line.len() > 0 && line[0] == 45 {
                        if line == seq![45u8, 49u8] {
                            Parsed::Done(FrameV::Null, next)
                        } else {
                            Parsed::Invalid
                        }
                    } else if t == 36 {
                        match line_number(line) {
                            Some(n) => if next + n + 2 > buf.len() {
                                Parsed::Incomplete
                            } else if buf[next + n] == 13 && buf[next + n + 1] == 10 {
                                Parsed::Done(FrameV::Bulk(buf.subrange(next, next + n)), next + n + 2)
                            } else {
                                Parsed::Invalid
                            },
                            None => Parsed::Invalid,
                        }
                    } else {
                        match line_number(line) {
                            Some(n) => match {
                                proof {
                                    lemma_line_end(buf, pos + 1);
                                }
                                parse_frames(buf, next, n as nat)
                            } {
                                ParsedMany::Done(parts, end) => Parsed::Done(FrameV::Array(parts), end),
                                ParsedMany::Incomplete => Parsed::Incomplete,
                                ParsedMany::Invalid => Parsed::Invalid,
                            },
                            None => Parsed::Invalid,
                        }
                    }
                },
            }
        }
    }
}

/// Reads `n` frames one after the other from `pos`.
pub open spec fn parse_frames(buf: Seq<u8>, pos: int, n: nat) -> ParsedMany
    decreases buf.len() - pos, 1int,
{
    if n == 0 {
        ParsedMany::Done(Seq::empty(), pos)
    } else {
        match parse_frame(buf, pos) {
            Parsed::Done(f, p) => if pos < p <= buf.len() {
                match parse_frames(buf, p, (n - 1) as nat) {
                    ParsedMany::Done(fs, e) => ParsedMany::Done(seq![f] + fs, e),
                    ParsedMany::Incomplete => ParsedMany::Incomplete,
                    ParsedMany::Invalid => ParsedMany::Invalid,
                }
            } else {
                ParsedMany::Invalid
            },
            Parsed::Incomplete => ParsedMany::Incomplete,
            Parsed::Invalid => ParsedMany::Invalid,
        }
    }
}

/// Why bytes could not be read as a frame.
#[derive(Debug, PartialEq, Eq)]
pub enum FrameError {
    /// More bytes are needed.
    Incomplete,
    /// The bytes are no frame.
    Invalid,
}

/// Whether an outcome of reading matches what the reading function gave.
pub open spec fn parsed_as(r: Result<(Frame, usize), FrameError>, p: Parsed) -> bool {
    match r {
        Ok((f, e)) => p == Parsed::Done(f@, e as int),
        Err(FrameError::Incomplete) => p is Incomplete,
        Err(FrameError::Invalid) => p is Invalid,
    }
}

pub open spec fn prepend_frames(fs: Seq<FrameV>, r: ParsedMany) -> ParsedMany {
    match r {
        ParsedMany::Done(gs, e) => ParsedMany::Done(fs + gs, e),
        other => other,
    }
}

proof fn lemma_parse_frame_bounds(buf: Seq<u8>, pos: int)
    ensures
        parse_frame(buf, pos) matches Parsed::Done(_, p) ==> pos < p <= buf.len(),
    decreases buf.len() - pos, 0int,
{
    if 0 <= pos < buf.len() {
        lemma_line_end(buf, pos + 1);
        if let Some(e) = line_end(buf, pos + 1) {
            if let Some(n) = line_number(buf.subrange(pos + 1, e)) {
                if buf[pos] == 42 {
                    lemma_parse_frames_bounds(buf, e + 2, n as nat);
                }
            }
        }
    }
}

proof fn lemma_parse_frames_bounds(buf: Seq<u8>, pos: int, n: nat)
    requires
        pos <= buf.len(),
    ensures
        parse_frames(buf, pos, n) matches ParsedMany::Done(_, p) ==> pos <= p <= buf.len(),
    decreases buf.len() - pos, 1int,
{
    if n > 0 {
        if let Parsed::Done(f, p) = parse_frame(buf, pos) {
            if pos < p <= buf.len() {
                lemma_parse_frames_bounds(buf, p, (n - 1) as nat);
            }
        }
    }
}

pub proof fn lemma_line_end(buf: Seq<u8>, pos: int)
    ensures
        line_end(buf, pos) matches Some(e) ==> pos <= e && e + 1 < buf.len() && buf[e] == 13
            && buf[e + 1] == 10,
    decreases buf.len() - pos,
{
    if !(pos < 0 || pos + 1 >= buf.len()) && !(buf[pos] == 13 && buf[pos + 1] == 10) {
        lemma_line_end(buf, pos + 1);
    }
}

} // verus!

verus! {

/// The position of the first CR LF at or after `pos`.
fn find_line_end(buf: &[u8], pos: usize) -> (r: Option<usize>)
    ensures
        match r {
            Some(e) => line_end(buf@, pos as int) == Some(e as int),
            None => line_end(buf@, pos as int) is None,
        },
{
    let mut i = pos;
    while i < buf.len() && i + 1 < buf.len()
        invariant
            pos <= i,
            line_end(buf@, pos as int) == line_end(buf@, i as int),
        decreases buf.len() - i,
    {
        if buf[i] == 13 && buf[i + 1] == 10 {
            return Some(i);
        }
        i = i + 1;
    }
    None
}

proof fn lemma_digits_value_grows(d: Seq<u8>, k: int)
    requires
        0 <= k <= d.len(),
        forall|i: int| 0 <= i < d.len() ==> 48 <= #[trigger] d[i] <= 57,
    ensures
        ascii_digits_value(d.subrange(0, k)) <= ascii_digits_value(d),
        0 <= ascii_digits_value(d.subrange(0, k)),
    decreases d.len() - k,
{
    assert(d.subrange(0, d.len() as int) =~= d);
    if k < d.len() {
        lemma_digits_value_grows(d, k + 1);
        assert(d.subrange(0, k + 1).drop_last() =~= d.subrange(0, k));
        lemma_digits_value_nonneg(d.subrange(0, k));
    } else {
        lemma_digits_value_nonneg(d);
    }
}

proof fn lemma_digits_value_nonneg(d: Seq<u8>)
    requires
        forall|i: int| 0 <= i < d.len() ==> 48 <= #[trigger] d[i] <= 57,
    ensures
        0 <= ascii_digits_value(d),
    decreases d.len(),
{
    if d.len() > 0 {
        lemma_digits_value_nonneg(d.drop_last());
    }
}

/// The number that the bytes from `from` to `to` write (see
/// [`line_number`]).
fn parse_line_number(buf: &[u8], from: usize, to: usize) -> (r: Option<u64>)
    requires
        from <= to <= buf@.len(),
    ensures
        r == line_number(buf@.subrange(from as int, to as int)),
{
    let ghost l = buf@.subrange(from as int, to as int);
    if from == to {
        return None;
    }
    let mut v: u64 = 0;
    let mut i = from;
    while i < to
        invariant
            from <= i <= to <= buf@.len(),
            l == buf@.subrange(from as int, to as int),
            forall|j: int| 0 <= j < i - from ==> 48 <= #[trigger] l[j] <= 57,
            v == ascii_digits_value(l.subrange(0, i - from)),
        decreases to - i,
    {
        let b = buf[i];
        if b < 48 || b > 57 {
            assert(l[i - from] == b);
            return None;
        }
        let d = (b - 48) as u64;
        assert(l.subrange(0, i + 1 - from).drop_last() =~= l.subrange(0, i - from));
        if v > (u64::MAX - d) / 10 {
            proof {
                let ghost p = l.subrange(0, i + 1 - from);
                assert(ascii_digits_value(p) > u64::MAX) by (nonlinear_arith)
                    requires
                        ascii_digits_value(p) == v * 10 + d,
                        v > (u64::MAX - d) / 10,
                        d <= 9,
                ;
                if forall|j: int| 0 <= j < l.len() ==> 48 <= #[trigger] l[j] <= 57 {
                    lemma_digits_value_grows(l, i + 1 - from);
                }
            }
            return None;
        }
        assert(v * 10 + d <= u64::MAX) by (nonlinear_arith)
            requires
                v <= (u64::MAX - d) / 10,
                d <= 9,
        ;
        v = v * 10 + d;
        i = i + 1;
    }
    assert(l.subrange(0, to - from) =~= l);
    Some(v)
}

} // verus!

verus! {

proof fn lemma_frames_view_push(s: Seq<Frame>, x: Frame)
    ensures
        frames_view(s.push(x), (s.len() + 1) as int) == frames_view(s, s.len() as int).push(frame_view(x)),
{
    lemma_frames_view(s.push(x), (s.len() + 1) as int);
    lemma_frames_view(s, s.len() as int);
    assert(frames_view(s.push(x), (s.len() + 1) as int) =~= frames_view(s, s.len() as int).push(
        frame_view(x),
    ));
}

impl Frame {
    /// Reads the frame at `pos` of `buf`, with the position after it (see
    /// [`parse_frame`]).
    pub fn parse_at(buf: &[u8], pos: usize) -> (r: Result<(Frame, usize), FrameError>)
        ensures
            parsed_as(r, parse_frame(buf@, pos as int)),
            r matches Ok((_, e)) ==> pos < e <= buf@.len(),
        decreases buf.len() - pos,
    {
        proof {
            lemma_parse_frame_bounds(buf@, pos as int);
        }
        if pos >= buf.len() {
            return Err(FrameError::Incomplete);
        }
        let t = buf[pos];
        if t != 43 && t != 45 && t != 58 && t != 36 && t != 42 {
            return Err(FrameError::Invalid);
        }
        proof {
            lemma_line_end(buf@, pos + 1);
        }
        let e = match find_line_end(buf, pos + 1) {
            None => {
                return Err(FrameError::Incomplete);
            },
            Some(e) => e,
        };
        let next = e + 2;
        let ghost line = buf@.subrange(pos + 1, e as int);
        if t == 43 || t == 45 {
            let line_bytes = vstd::slice::slice_to_vec(vstd::slice::slice_subrange(buf, pos + 1, e));
            match utf8_decode(line_bytes) {
                Some(s) => {
                    if t == 43 {
                        Ok((Frame::Simple(s), next))
                    } else {
                        Ok((Frame::Error(s), next))
                    }
                },
                None => Err(FrameError::Invalid),
            }
        } else if t == 58 {
            match parse_line_number(buf, pos + 1, e) {
                Some(n) => Ok((Frame::Integer(n), next)),
                None => Err(FrameError::Invalid),
            }
        } else if t == 36 && e > pos + 1 && buf[pos + 1] == 45 {
            if e == pos + 3 && buf[pos + 2] == 49 {
                assert(line =~= seq![45u8, 49u8]);
                Ok((Frame::Null, next))
            } else {
                assert(line != seq![45u8, 49u8]) by {
                    if line.len() == 2 {
                        assert(line[1] == buf@[pos + 2]);
                    }
                }
                Err(FrameError::Invalid)
            }
        } else if t == 36 {
            assert(!(line.len() > 0 && line[0] == 45)) by {
                if line.len() > 0 {
                    assert(line[0] == buf@[pos + 1]);
                }
            }
            match parse_line_number(buf, pos + 1, e) {
                None => Err(FrameError::Invalid),
                Some(n) => {
                    let avail = buf.len() - next;
                    if (n as u128) + 2 > avail as u128 {
                        Err(FrameError::Incomplete)
                    } else {
                        let n = n as usize;
                        if buf[next + n] == 13 && buf[next + n + 1] == 10 {
                            let data = vstd::slice::slice_to_vec(
                                vstd::slice::slice_subrange(buf, next, next + n),
                            );
                            Ok((Frame::Bulk(data), next + n + 2))
                        } else {
                            Err(FrameError::Invalid)
                        }
                    }
                },
            }
        } else {
            match parse_line_number(buf, pos + 1, e) {
                None => Err(FrameError::Invalid),
                Some(n) => {
                    let mut parts: Vec<Frame> = Vec::new();
                    let mut p = next;
                    let mut i: u64 = 0;
                    proof {
                        lemma_frames_view(parts@, 0);
                        assert(frames_view(parts@, 0) =~= Seq::<FrameV>::empty());
                        assert(prepend_frames(Seq::empty(), parse_frames(buf@, p as int, n as nat))
                            =~= parse_frames(buf@, p as int, n as nat));
                    }
                    while i < n
                        invariant
                            pos < next <= p <= buf@.len(),
                            pos < buf@.len(),
                            buf@[pos as int] == 42,
                            t == 42,
                            next == e + 2,
                            line == buf@.subrange(pos + 1, e as int),
                            line_number(line) == Some(n),
                            line_end(buf@, pos + 1) == Some(e as int),
                            i <= n,
                            parts@.len() == i,
                            parse_frames(buf@, next as int, n as nat) == prepend_frames(
                                frames_view(parts@, parts@.len() as int),
                                parse_frames(buf@, p as int, (n - i) as nat),
                            ),
                        decreases n - i,
                    {
                        match Frame::parse_at(buf, p) {
                            Ok((f, p1)) => {
                                let ghost before = frames_view(parts@, parts@.len() as int);
                                proof {
                                    lemma_frames_view_push(parts@, f);
                                    let rest = parse_frames(buf@, p1 as int, (n - i - 1) as nat);
                                    assert(prepend_frames(before, prepend_frames(seq![f@], rest))
                                        =~= prepend_frames(before.push(f@), rest)) by {
                                        if let ParsedMany::Done(gs, e2) = rest {
                                            assert(before + (seq![f@] + gs) =~= before.push(f@) + gs);
                                        }
                                    }
                                }
                                parts.push(f);
                                p = p1;
                                i = i + 1;
                            },
                            Err(err) => {
                                return Err(err);
                            },
                        }
                    }
                    Ok((Frame::Array(parts), p))
                },
            }
        }
    }
}

} // verus!

verus! {

impl Frame {
    /// The position after the first complete frame of `buf`.
    pub fn check(buf: &[u8]) -> (r: Result<usize, FrameError>)
        ensures
            match r {
                Ok(e) => parse_frame(buf@, 0) matches Parsed::Done(_, p) && p == e,
                Err(FrameError::Incomplete) => parse_frame(buf@, 0) is Incomplete,
                Err(FrameError::Invalid) => parse_frame(buf@, 0) is Invalid,
            },
    {
        match Frame::parse_at(buf, 0) {
            Ok((_, e)) => Ok(e),
            Err(err) => Err(err),
        }
    }

    /// The first frame of `buf`.
    pub fn deserialize(buf: &[u8]) -> (r: Result<Frame, FrameError>)
        ensures
            match r {
                Ok(f) => parse_frame(buf@, 0) matches Parsed::Done(g, _) && g == f@,
                Err(FrameError::Incomplete) => parse_frame(buf@, 0) is Incomplete,
                Err(FrameError::Invalid) => parse_frame(buf@, 0) is Invalid,
            },
    {
        match Frame::parse_at(buf, 0) {
            Ok((f, _)) => Ok(f),
            Err(err) => Err(err),
        }
    }
}

/// Whether a frame reads back as itself: the texts of its simple and error
/// frames hold no carriage return, and its lengths fit in 64 bits.
pub open spec fn encodable(f: FrameV) -> bool
    decreases f, 0int,
{
    match f {
        FrameV::Simple(s) => !encode_utf8(s).contains(13u8),
        FrameV::Error(s) => !encode_utf8(s).contains(13u8),
        FrameV::Bulk(b) => b.len() <= u64::MAX,
        FrameV::Array(parts) => parts.len() <= u64::MAX && all_encodable(parts, parts.len() as int),
        _ => true,
    }
}

/// Whether the first `n` frames of `parts` read back as themselves.
pub open spec fn all_encodable(parts: Seq<FrameV>, n: int) -> bool
    decreases parts, n,
{
    if n <= 0 || n > parts.len() {
        true
    } else {
        all_encodable(parts, n - 1) && encodable(parts[n - 1])
    }
}

proof fn lemma_all_encodable(parts: Seq<FrameV>, n: int, j: int)
    requires
        all_encodable(parts, n),
        0 <= j < n <= parts.len(),
    ensures
        encodable(parts[j]),
    decreases n,
{
    if j < n - 1 {
        lemma_all_encodable(parts, n - 1, j);
    }
}

proof fn lemma_line_end_at(buf: Seq<u8>, pos: int, q: int)
    requires
        0 <= pos <= q,
        q + 1 < buf.len(),
        forall|i: int| pos <= i < q ==> buf[i] != 13,
        buf[q] == 13,
        buf[q + 1] == 10,
    ensures
        line_end(buf, pos) == Some(q),
    decreases q - pos,
{
    if pos < q {
        lemma_line_end_at(buf, pos + 1, q);
    }
}

proof fn lemma_ascii_decimal(n: nat)
    ensures
        ascii_decimal(n).len() > 0,
        forall|i: int| 0 <= i < ascii_decimal(n).len() ==> 48 <= #[trigger] ascii_decimal(n)[i] <= 57,
        ascii_digits_value(ascii_decimal(n)) == n,
    decreases n,
{
    let d = ascii_decimal(n);
    if n < 10 {
        assert(d.drop_last() =~= Seq::<u8>::empty());
        assert(d.last() == (48 + n) as u8);
        assert(ascii_digits_value(d) == ascii_digits_value(d.drop_last()) * 10 + (d.last() - 48));
    } else {
        let q = n / 10;
        let r = n % 10;
        lemma_ascii_decimal(q);
        assert(d.drop_last() =~= ascii_decimal(q));
        assert(d.last() == (48 + r) as u8);
        assert(ascii_digits_value(d) == ascii_digits_value(d.drop_last()) * 10 + (d.last() - 48));
        assert(ascii_digits_value(d) == q * 10 + r);
        assert(q * 10 + r == n);
    }
}

proof fn lemma_line_number_decimal(n: u64)
    ensures
        line_number(ascii_decimal(n as nat)) == Some(n),
{
    lemma_ascii_decimal(n as nat);
}

proof fn lemma_encode_frames_len(parts: Seq<FrameV>, j: int, n: int)
    requires
        0 <= j <= n <= parts.len(),
    ensures
        encode_frames(parts, j).len() <= encode_frames(parts, n).len(),
        encode_frames(parts, n).subrange(0, encode_frames(parts, j).len() as int) == encode_frames(
            parts,
            j,
        ),
    decreases n - j,
{
    if j < n {
        lemma_encode_frames_len(parts, j, n - 1);
        let a = encode_frames(parts, n - 1);
        let b = encode_frames(parts, j);
        assert((a + encode_frame(parts[n - 1])).subrange(0, b.len() as int) =~= a.subrange(
            0,
            b.len() as int,
        ));
    } else {
        assert(encode_frames(parts, n).subrange(0, encode_frames(parts, n).len() as int)
            =~= encode_frames(parts, n));
    }
}

/// Bytes that hold the wire form of a frame at `pos` read back as that
/// frame, followed by the position after its bytes.
pub proof fn lemma_parse_encoded(buf: Seq<u8>, pos: int, f: FrameV)
    requires
        encodable(f),
        0 <= pos,
        pos + encode_frame(f).len() <= buf.len(),
        buf.subrange(pos, pos + encode_frame(f).len()) == encode_frame(f),
    ensures
        parse_frame(buf, pos) == Parsed::Done(f, pos + encode_frame(f).len()),
    decreases f, 0int, 0int,
{
    let enc = encode_frame(f);
    assert forall|i: int| 0 <= i < enc.len() implies buf[pos + i] == #[trigger] enc[i] by {
        assert(buf.subrange(pos, pos + enc.len())[i] == buf[pos + i]);
    }
    assert(buf[pos] == enc[0]);
    match f {
        FrameV::Simple(s) => {
            let b = encode_utf8(s);
            assert(enc == seq![43u8] + b + crlf());
            assert forall|i: int| pos + 1 <= i < pos + 1 + b.len() implies buf[i] != 13 by {
                assert(enc[i - pos] == b[i - pos - 1]);
                assert(b.contains(b[i - pos - 1]));
            }
            assert(buf[pos + 1 + b.len()] == enc[1 + b.len() as int]);
            assert(buf[pos + 2 + b.len()] == enc[2 + b.len() as int]);
            lemma_line_end_at(buf, pos + 1, pos + 1 + b.len());
            assert(buf.subrange(pos + 1, pos + 1 + b.len()) =~= b) by {
                assert forall|i: int| 0 <= i < b.len() implies buf.subrange(
                    pos + 1,
                    pos + 1 + b.len(),
                )[i] == b[i] by {
                    assert(enc[1 + i] == b[i]);
                }
            }
            vstd::utf8::encode_utf8_valid_utf8(s);
            vstd::utf8::encode_utf8_decode_utf8(s);
        },
        FrameV::Error(s) => {
            let b = encode_utf8(s);
            assert(enc == seq![45u8] + b + crlf());
            assert forall|i: int| pos + 1 <= i < pos + 1 + b.len() implies buf[i] != 13 by {
                assert(enc[i - pos] == b[i - pos - 1]);
                assert(b.contains(b[i - pos - 1]));
            }
            assert(buf[pos + 1 + b.len()] == enc[1 + b.len() as int]);
            assert(buf[pos + 2 + b.len()] == enc[2 + b.len() as int]);
            lemma_line_end_at(buf, pos + 1, pos + 1 + b.len());
            assert(buf.subrange(pos + 1, pos + 1 + b.len()) =~= b) by {
                assert forall|i: int| 0 <= i < b.len() implies buf.subrange(
                    pos + 1,
                    pos + 1 + b.len(),
                )[i] == b[i] by {
                    assert(enc[1 + i] == b[i]);
                }
            }
            vstd::utf8::encode_utf8_valid_utf8(s);
            vstd::utf8::encode_utf8_decode_utf8(s);
        },
        FrameV::Integer(n) => {
            let d = ascii_decimal(n as nat);
            lemma_ascii_decimal(n as nat);
            lemma_line_number_decimal(n);
            assert forall|i: int| pos + 1 <= i < pos + 1 + d.len() implies buf[i] != 13 by {
                assert(enc[i - pos] == d[i - pos - 1]);
            }
            assert(buf[pos + 1 + d.len()] == enc[1 + d.len() as int]);
            assert(buf[pos + 2 + d.len()] == enc[2 + d.len() as int]);
            lemma_line_end_at(buf, pos + 1, pos + 1 + d.len());
            assert(buf.subrange(pos + 1, pos + 1 + d.len()) =~= d) by {
                assert forall|i: int| 0 <= i < d.len() implies buf.subrange(
                    pos + 1,
                    pos + 1 + d.len(),
                )[i] == d[i] by {
                    assert(enc[1 + i] == d[i]);
                }
            }
        },
        FrameV::Null => {
            lemma_line_end_at(buf, pos + 1, pos + 3);
            assert(buf.subrange(pos + 1, pos + 3) =~= seq![45u8, 49u8]);
        },
        FrameV::Bulk(data) => {
            let d = ascii_decimal(data.len());
            lemma_ascii_decimal(data.len());
            lemma_line_number_decimal(data.len() as u64);
            assert forall|i: int| pos + 1 <= i < pos + 1 + d.len() implies buf[i] != 13 by {
                assert(enc[i - pos] == d[i - pos - 1]);
            }
            assert(buf[pos + 1 + d.len()] == enc[1 + d.len() as int]);
            assert(buf[pos + 2 + d.len()] == enc[2 + d.len() as int]);
            lemma_line_end_at(buf, pos + 1, pos + 1 + d.len());
            assert(buf.subrange(pos + 1, pos + 1 + d.len()) =~= d) by {
                assert forall|i: int| 0 <= i < d.len() implies buf.subrange(
                    pos + 1,
                    pos + 1 + d.len(),
                )[i] == d[i] by {
                    assert(enc[1 + i] == d[i]);
                }
            }
            assert(buf[pos + 1] == d[0]);
            let next = pos + 3 + d.len();
            assert(buf[next + data.len()] == enc[3 + d.len() + data.len() as int]);
            assert(buf[next + data.len() + 1] == enc[4 + d.len() + data.len() as int]);
            assert(buf.subrange(next, next + data.len()) =~= data) by {
                assert forall|i: int| 0 <= i < data.len() implies buf.subrange(
                    next,
                    next + data.len(),
                )[i] == data[i] by {
                    assert(enc[3 + d.len() + i] == data[i]);
                }
            }
        },
        FrameV::Array(parts) => {
            let k = parts.len();
            let d = ascii_decimal(k);
            lemma_ascii_decimal(k);
            lemma_line_number_decimal(k as u64);
            assert forall|i: int| pos + 1 <= i < pos + 1 + d.len() implies buf[i] != 13 by {
                assert(enc[i - pos] == d[i - pos - 1]);
            }
            assert(buf[pos + 1 + d.len()] == enc[1 + d.len() as int]);
            assert(buf[pos + 2 + d.len()] == enc[2 + d.len() as int]);
            lemma_line_end_at(buf, pos + 1, pos + 1 + d.len());
            assert(buf.subrange(pos + 1, pos + 1 + d.len()) =~= d) by {
                assert forall|i: int| 0 <= i < d.len() implies buf.subrange(
                    pos + 1,
                    pos + 1 + d.len(),
                )[i] == d[i] by {
                    assert(enc[1 + i] == d[i]);
                }
            }
            let next = pos + 3 + d.len();
            let body = encode_frames(parts, k as int);
            assert(buf.subrange(next, next + body.len()) =~= body) by {
                assert forall|i: int| 0 <= i < body.len() implies buf.subrange(
                    next,
                    next + body.len(),
                )[i] == body[i] by {
                    assert(enc[3 + d.len() as int + i] == body[i]);
                }
            }
            lemma_parse_encoded_frames(buf, next, parts, 0);
            assert(parts.subrange(0, k as int) =~= parts);
        },
    }
}

/// Bytes that hold the wire forms of `parts` from the `j`-th on read back
/// as those frames.
proof fn lemma_parse_encoded_frames(buf: Seq<u8>, start: int, parts: Seq<FrameV>, j: int)
    requires
        all_encodable(parts, parts.len() as int),
        0 <= j <= parts.len(),
        0 <= start,
        start + encode_frames(parts, parts.len() as int).len() <= buf.len(),
        buf.subrange(start, start + encode_frames(parts, parts.len() as int).len())
            == encode_frames(parts, parts.len() as int),
    ensures
        parse_frames(buf, start + encode_frames(parts, j).len(), (parts.len() - j) as nat)
            == ParsedMany::Done(
            parts.subrange(j, parts.len() as int),
            start + encode_frames(parts, parts.len() as int).len(),
        ),
    decreases parts, 1int, parts.len() - j,
{
    let n = parts.len() as int;
    let all = encode_frames(parts, n);
    lemma_encode_frames_len(parts, j, n);
    if j == n {
        assert(parts.subrange(j, n) =~= Seq::<FrameV>::empty());
    } else {
        lemma_encode_frames_len(parts, j + 1, n);
        let q = start + encode_frames(parts, j).len();
        let f = parts[j];
        let ef = encode_frame(f);
        assert(encode_frames(parts, j + 1) == encode_frames(parts, j) + ef);
        lemma_all_encodable(parts, n, j);
        assert(buf.subrange(q, q + ef.len()) =~= ef) by {
            assert forall|i: int| 0 <= i < ef.len() implies buf.subrange(q, q + ef.len())[i]
                == ef[i] by {
                let o = encode_frames(parts, j).len() + i;
                assert(all.subrange(0, encode_frames(parts, j + 1).len() as int)[o]
                    == encode_frames(parts, j + 1)[o]);
                assert(buf.subrange(start, start + all.len())[o] == buf[start + o]);
            }
        }
        lemma_parse_encoded(buf, q, f);
        lemma_parse_encoded_frames(buf, start, parts, j + 1);
        assert(seq![f] + parts.subrange(j + 1, n) =~= parts.subrange(j, n));
    }
}

/// The wire form of a frame reads back as the frame, wherever it stands in
/// a buffer, provided its simple and error texts hold no carriage return.
pub proof fn lemma_frame_roundtrip(pre: Seq<u8>, f: FrameV, rest: Seq<u8>)
    requires
        encodable(f),
    ensures
        parse_frame(pre + encode_frame(f) + rest, pre.len() as int) == Parsed::Done(
            f,
            (pre.len() + encode_frame(f).len()) as int,
        ),
{
    let buf = pre + encode_frame(f) + rest;
    assert(buf.subrange(pre.len() as int, (pre.len() + encode_frame(f).len()) as int) =~= encode_frame(f));
    lemma_parse_encoded(buf, pre.len() as int, f);
}

} // verus!

verus! {

/// The digits that a frame writes for a length, a count or an integer are
/// the decimal numeral of the number: ASCII digits only, no leading zero but
/// for zero itself, worth the number.
pub proof fn lemma_ascii_decimal_numeral(n: nat)
    ensures
        ascii_decimal(n).len() >= 1,
        forall|i: int| 0 <= i < ascii_decimal(n).len() ==> 48 <= #[trigger] ascii_decimal(n)[i] <= 57,
        ascii_digits_value(ascii_decimal(n)) == n,
        n > 0 ==> ascii_decimal(n)[0] != 48,
    decreases n,
{
    let d = ascii_decimal(n);
    assert(d.last() == (48 + n % 10) as u8);
    assert(d.last() as int == 48 + n % 10);
    if n < 10 {
        assert(d.drop_last() =~= Seq::<u8>::empty());
        assert(ascii_digits_value(d) == ascii_digits_value(d.drop_last()) * 10 + (d.last() - 48));
    } else {
        lemma_ascii_decimal_numeral(n / 10);
        let p = ascii_decimal(n / 10);
        assert(d.drop_last() =~= p);
        assert forall|i: int| 0 <= i < d.len() implies 48 <= #[trigger] d[i] <= 57 by {
            if i < p.len() {
                assert(d[i] == p[i]);
            }
        }
        assert(d[0] == p[0]);
        assert(ascii_digits_value(d) == ascii_digits_value(p) * 10 + (d.last() - 48));
        assert((n / 10) * 10 + n % 10 == n);
        assert(ascii_digits_value(p) * 10 == (n / 10) * 10);
    }
}

/// Each kind of frame starts with its own type byte: `+` a simple frame, `-`
/// an error, `:` an integer, `$` a bulk frame (and the null frame, `$-1`),
/// `*` an array; the line after it ends with CR LF, and a bulk frame's
/// bytes follow its length's line and are ended by CR LF too.
pub proof fn lemma_wire_layout(f: FrameV)
    ensures
        encode_frame(f)[0] == match f {
            FrameV::Simple(_) => 43u8,
            FrameV::Error(_) => 45u8,
            FrameV::Integer(_) => 58u8,
            FrameV::Bulk(_) => 36u8,
            FrameV::Null => 36u8,
            FrameV::Array(_) => 42u8,
        },
        f is Simple ==> encode_frame(f) == seq![43u8] + encode_utf8(f->Simple_0) + seq![13u8, 10u8],
        f is Error ==> encode_frame(f) == seq![45u8] + encode_utf8(f->Error_0) + seq![13u8, 10u8],
        f is Bulk ==> encode_frame(f) == seq![36u8] + ascii_decimal(f->Bulk_0.len()) + seq![13u8, 10u8]
            + f->Bulk_0 + seq![13u8, 10u8],
        f is Null ==> encode_frame(f) == seq![36u8, 45u8, 49u8, 13u8, 10u8],
{
}

} // verus!
