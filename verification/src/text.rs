//! Text rendering used by frames: decimal numbers, byte-string escapes and
//! UTF-8 conversions.
use vstd::prelude::*;
use vstd::utf8::*;
use vstd::string::*;

verus! {

/// The character of a decimal digit.
pub open spec fn digit_char(d: nat) -> char {
    (48 + d) as char
}

/// The decimal representation of `n`, without sign or leading zeros.
pub open spec fn decimal(n: nat) -> Seq<char>
    decreases n,
{
    if n < 10 {
        seq![digit_char(n)]
    } else {
        decimal(n / 10).push(digit_char(n % 10))
    }
}

/// Renders `n` in decimal.
pub(crate) fn u64_text(n: u64) -> (r: String)
    ensures
        r@ == decimal(n as nat),
    decreases n,
{
    let digits = "0123456789";
    proof {
        reveal_strlit("0123456789");
        assert(forall|i: int| 0 <= i < 10 ==> #[trigger] digits@[i] == digit_char(i as nat));
    }
    let d = (n % 10) as usize;
    let last = digits.substring_char(d, d + 1);
    assert(last@ =~= seq![digit_char(d as nat)]);
    if n < 10 {
        last.to_owned()
    } else {
        let mut r = u64_text(n / 10);
        r.append(last);
        r
    }
}

} // verus!

verus! {

/// A hexadecimal digit, lower case.
pub open spec fn hex_char(d: nat) -> char {
    if d < 10 {
        (48 + d) as char
    } else {
        (87 + d) as char
    }
}

/// How the `Debug` rendering of `bytes::Bytes` writes one byte.
pub open spec fn escaped_byte(b: u8) -> Seq<char> {
    if b == 10 {
        seq!['\\', 'n']
    } else if b == 13 {
        seq!['\\', 'r']
    } else if b == 9 {
        seq!['\\', 't']
    } else if b == 92 || b == 34 {
        seq!['\\', b as char]
    } else if b == 0 {
        seq!['\\', '0']
    } else if 0x20 <= b < 0x7f {
        seq![b as char]
    } else {
        seq!['\\', 'x', hex_char((b / 16) as nat), hex_char((b % 16) as nat)]
    }
}

/// The escaped bytes, one after the other.
pub open spec fn escaped_bytes(bs: Seq<u8>) -> Seq<char>
    decreases bs.len(),
{
    if bs.len() == 0 {
        Seq::empty()
    } else {
        escaped_bytes(bs.drop_last()) + escaped_byte(bs.last())
    }
}

/// The `Debug` rendering of `bytes::Bytes`: `b"`, the escaped bytes, `"`.
pub open spec fn bytes_debug(bs: Seq<u8>) -> Seq<char> {
    seq!['b', '"'] + escaped_bytes(bs) + seq!['"']
}

/// Renders `bs` as `bytes::Bytes` renders itself with `Debug`.
#[verifier::external_body]
pub(crate) fn bytes_debug_text(bs: &Vec<u8>) -> (r: String)
    ensures
        r@ == bytes_debug(bs@),
{
    format!("{:?}", bytes::Bytes::copy_from_slice(bs.as_slice()))
}

/// Decodes UTF-8 bytes into a string (std's `String::from_utf8`); `None`
/// where the bytes are not valid UTF-8.
#[verifier::external_body]
pub(crate) fn utf8_decode(bs: Vec<u8>) -> (r: Option<String>)
    ensures
        r is Some <==> valid_utf8(bs@),
        r matches Some(s) ==> s@ == decode_utf8(bs@),
{
    String::from_utf8(bs).ok()
}

} // verus!
