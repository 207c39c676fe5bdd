//! The command lines of users: what a line typed to a server or a client
//! asks for, and where a client routes a request.
use vstd::prelude::*;
use vstd::string::*;
use crate::data_structure::{CommandEntry, CommandEntryV};
use crate::text::{decimal, digit_char, u64_text};

verus! {

/// Whether `c` has the Unicode `White_Space` property.
pub open spec fn white_space(c: char) -> bool {
    let u = c as u32;
    ||| 0x9 <= u <= 0xd
    ||| u == 0x20
    ||| u == 0x85
    ||| u == 0xa0
    ||| u == 0x1680
    ||| 0x2000 <= u <= 0x200a
    ||| u == 0x2028
    ||| u == 0x2029
    ||| u == 0x202f
    ||| u == 0x205f
    ||| u == 0x3000
}

/// Whether `c` is white space.
fn char_is_whitespace(c: char) -> (r: bool)
    ensures
        r == white_space(c),
{
    let u = c as u32;
    (0x9 <= u && u <= 0xd) || u == 0x20 || u == 0x85 || u == 0xa0 || u == 0x1680 || (0x2000 <= u
        && u <= 0x200a) || u == 0x2028 || u == 0x2029 || u == 0x202f || u == 0x205f || u == 0x3000
}

/// The number of white-space characters that `s` starts with.
pub open spec fn leading_space(s: Seq<char>) -> nat
    decreases s.len(),
{
    if s.len() > 0 && white_space(s[0]) {
        1 + leading_space(s.drop_first())
    } else {
        0
    }
}

/// `s` without its trailing white space.
pub open spec fn trim_end(s: Seq<char>) -> Seq<char>
    decreases s.len(),
{
    if s.len() > 0 && white_space(s.last()) {
        trim_end(s.drop_last())
    } else {
        s
    }
}

/// `s` without its leading and trailing white space (std's `str::trim`).
pub open spec fn trim(s: Seq<char>) -> Seq<char> {
    trim_end(s.subrange(leading_space(s) as int, s.len() as int))
}

/// The pieces of `s` between single spaces (std's `str::split(" ")`).
pub open spec fn split_spaces(s: Seq<char>) -> Seq<Seq<char>>
    decreases s.len(),
{
    if s.len() == 0 {
        seq![Seq::empty()]
    } else {
        let t = split_spaces(s.drop_last());
        if s.last() == ' ' {
            t.push(Seq::empty())
        } else {
            t.update(t.len() - 1, t.last().push(s.last()))
        }
    }
}

pub proof fn lemma_split_spaces_nonempty(s: Seq<char>)
    ensures
        split_spaces(s).len() >= 1,
    decreases s.len(),
{
    if s.len() > 0 {
        lemma_split_spaces_nonempty(s.drop_last());
    }
}

proof fn lemma_leading_space(s: Seq<char>, i: int)
    requires
        0 <= i <= s.len(),
        forall|j: int| 0 <= j < i ==> white_space(s[j]),
        i == s.len() || !white_space(s[i]),
    ensures
        leading_space(s) == i,
    decreases i,
{
    if i > 0 {
        lemma_leading_space(s.drop_first(), i - 1);
    }
}

proof fn lemma_trim_end(s: Seq<char>, k: int)
    requires
        0 <= k <= s.len(),
        forall|j: int| k <= j < s.len() ==> white_space(s[j]),
        k == 0 || !white_space(s[k - 1]),
    ensures
        trim_end(s) == s.subrange(0, k),
    decreases s.len(),
{
    if s.len() > k {
        lemma_trim_end(s.drop_last(), k);
        assert(s.drop_last().subrange(0, k) =~= s.subrange(0, k));
    } else {
        assert(s.subrange(0, k) =~= s);
    }
}

/// `s` without its leading and trailing white space.
pub fn trim_str(s: &str) -> (r: String)
    ensures
        r@ == trim(s@),
{
    let n = s.unicode_len();
    let mut a: usize = 0;
    while a < n && char_is_whitespace(s.get_char(a))
        invariant
            n == s@.len(),
            a <= n,
            forall|j: int| 0 <= j < a ==> white_space(s@[j]),
        decreases n - a,
    {
        a = a + 1;
    }
    let mut b: usize = n;
    while b > a && char_is_whitespace(s.get_char(b - 1))
        invariant
            n == s@.len(),
            a <= b <= n,
            forall|j: int| b <= j < n ==> white_space(s@[j]),
        decreases b - a,
    {
        b = b - 1;
    }
    proof {
        lemma_leading_space(s@, a as int);
        let t = s@.subrange(a as int, n as int);
        lemma_trim_end(t, (b - a) as int);
        assert(t.subrange(0, (b - a) as int) =~= s@.subrange(a as int, b as int));
    }
    s.substring_char(a, b).to_owned()
}

/// The pieces of `s` between single spaces.
pub fn split_str(s: &str) -> (r: Vec<String>)
    ensures
        r@.len() == split_spaces(s@).len(),
        forall|i: int| 0 <= i < r@.len() ==> #[trigger] r@[i]@ == split_spaces(s@)[i],
{
    let n = s.unicode_len();
    let mut done: Vec<String> = Vec::new();
    let mut cur = String::new();
    let mut i: usize = 0;
    while i < n
        invariant
            n == s@.len(),
            i <= n,
            split_spaces(s@.subrange(0, i as int)).len() == done@.len() + 1,
            forall|j: int| 0 <= j < done@.len() ==> #[trigger] done@[j]@ == split_spaces(
                s@.subrange(0, i as int),
            )[j],
            cur@ == split_spaces(s@.subrange(0, i as int)).last(),
        decreases n - i,
    {
        let c = s.get_char(i);
        proof {
            assert(s@.subrange(0, i + 1).drop_last() =~= s@.subrange(0, i as int));
        }
        if c == ' ' {
            let mut piece = String::new();
            std::mem::swap(&mut piece, &mut cur);
            done.push(piece);
        } else {
            let mut one = String::new();
            one.append(s.substring_char(i, i + 1));
            assert(s@.subrange(i as int, i + 1) =~= seq![c]);
            cur.append(one.as_str());
        }
        i = i + 1;
    }
    assert(s@.subrange(0, n as int) =~= s@);
    done.push(cur);
    done
}

/// The value of the decimal digits `d`.
pub open spec fn digits_value(d: Seq<char>) -> int
    decreases d.len(),
{
    if d.len() == 0 {
        0
    } else {
        digits_value(d.drop_last()) * 10 + (d.last() as int - 48)
    }
}

/// The number that `s` writes (std's `str::parse::<u64>`): an optional `+`,
/// then one or more ASCII digits whose value fits in 64 bits.
pub open spec fn parse_u64(s: Seq<char>) -> Option<u64> {
    let d = if s.len() > 0 && s[0] == '+' {
        s.drop_first()
    } else {
        s
    };
    if d.len() > 0 && all_digits(d) && digits_value(d) <= u64::MAX {
        Some(digits_value(d) as u64)
    } else {
        None
    }
}

/// Whether every character of `d` is an ASCII digit.
pub open spec fn all_digits(d: Seq<char>) -> bool {
    forall|i: int| 0 <= i < d.len() ==> '0' <= #[trigger] d[i] <= '9'
}

/// The value of digits does not shrink as digits are added.
proof fn lemma_digits_value_grows(d: Seq<char>, j: int)
    requires
        all_digits(d),
        0 <= j <= d.len(),
    ensures
        0 <= digits_value(d.subrange(0, j)) <= digits_value(d),
    decreases d.len(),
{
    if d.len() > 0 {
        assert(all_digits(d.drop_last())) by {
            assert forall|i: int| 0 <= i < d.drop_last().len() implies '0' <= #[trigger] d.drop_last()[i] <= '9' by {
                assert(d.drop_last()[i] == d[i]);
            }
        }
        assert('0' <= d[d.len() - 1] <= '9');
        if j == d.len() {
            assert(d.subrange(0, j) =~= d);
            lemma_digits_value_grows(d.drop_last(), j - 1);
        } else {
            assert(d.subrange(0, j) =~= d.drop_last().subrange(0, j));
            lemma_digits_value_grows(d.drop_last(), j);
        }
    }
}

/// Parses a number.
fn parse_u64_str(s: &str) -> (r: Option<u64>)
    ensures
        r == parse_u64(s@),
{
    let n = s.unicode_len();
    let start: usize = if n > 0 && s.get_char(0) == '+' {
        1
    } else {
        0
    };
    let ghost d = s@.subrange(start as int, n as int);
    proof {
        if start == 1 {
            assert(d =~= s@.drop_first());
        } else {
            assert(d =~= s@);
        }
    }
    if start == n {
        return None;
    }
    let mut acc: u64 = 0;
    let mut i: usize = start;
    while i < n
        invariant
            n == s@.len(),
            start < n,
            start <= i <= n,
            d == s@.subrange(start as int, n as int),
            d == (if s@.len() > 0 && s@[0] == '+' {
                s@.drop_first()
            } else {
                s@
            }),
            all_digits(d.subrange(0, i - start)),
            acc as int == digits_value(d.subrange(0, i - start)),
        decreases n - i,
    {
        let c = s.get_char(i);
        let ghost p = d.subrange(0, i - start);
        let ghost q = d.subrange(0, i - start + 1);
        assert(c == d[i - start]);
        assert(q.drop_last() =~= p);
        if !('0' <= c && c <= '9') {
            assert(!all_digits(d));
            return None;
        }
        assert(all_digits(q)) by {
            assert forall|k: int| 0 <= k < q.len() implies '0' <= #[trigger] q[k] <= '9' by {
                if k < p.len() {
                    assert(q[k] == p[k]);
                }
            }
        }
        let digit = (c as u32 - 48) as u64;
        assert(digits_value(q) == acc * 10 + digit);
        let next = match acc.checked_mul(10) {
            Some(m) => m.checked_add(digit),
            None => None,
        };
        match next {
            Some(v) => {
                acc = v;
            },
            None => {
                proof {
                    if all_digits(d) {
                        lemma_digits_value_grows(d, i - start + 1);
                    }
                }
                return None;
            },
        }
        i = i + 1;
    }
    assert(d.subrange(0, n - start) =~= d);
    Some(acc)
}

} // verus!

verus! {

/// The words of a line: its pieces between single spaces once trimmed.
pub open spec fn words(input: Seq<char>) -> Seq<Seq<char>> {
    split_spaces(trim(input))
}

/// The words of a line.
pub fn line_words(input: &str) -> (r: Vec<String>)
    ensures
        r@.len() == words(input@).len(),
        r@.len() >= 1,
        forall|i: int| 0 <= i < r@.len() ==> #[trigger] r@[i]@ == words(input@)[i],
{
    let t = trim_str(input);
    proof {
        lemma_split_spaces_nonempty(t@);
    }
    split_str(t.as_str())
}

/// What a line typed to a server asks for.
#[derive(Debug)]
pub enum ServerRequest {
    Read { key: String },
    Write { key: String, value: Vec<u8> },
    Show,
    Invalid { message: String },
}

pub enum ServerRequestV {
    Read { key: Seq<char> },
    Write { key: Seq<char>, value: Seq<u8> },
    Show,
    Invalid { message: Seq<char> },
}

impl View for ServerRequest {
    type V = ServerRequestV;

    open spec fn view(&self) -> ServerRequestV {
        match self {
            ServerRequest::Read { key } => ServerRequestV::Read { key: key@ },
            ServerRequest::Write { key, value } => ServerRequestV::Write { key: key@, value: value@ },
            ServerRequest::Show => ServerRequestV::Show,
            ServerRequest::Invalid { message } => ServerRequestV::Invalid { message: message@ },
        }
    }
}

/// A server reads `read KEY`, `write KEY VALUE`, the value taken as the
/// UTF-8 bytes of its text, and `show`, which asks for the configuration.
pub open spec fn server_request(input: Seq<char>) -> ServerRequestV {
    let w = words(input);
    if w[0] == "read"@ {
        if w.len() == 2 {
            ServerRequestV::Read { key: w[1] }
        } else {
            ServerRequestV::Invalid { message: " -> ERROR: Incorrect  command"@ }
        }
    } else if w[0] == "write"@ {
        if w.len() == 3 {
            ServerRequestV::Write { key: w[1], value: vstd::utf8::encode_utf8(w[2]) }
        } else {
            ServerRequestV::Invalid { message: " -> ERROR: Incorrect command"@ }
        }
    } else if w[0] == "show"@ {
        if w.len() == 1 {
            ServerRequestV::Show
        } else {
            ServerRequestV::Invalid { message: " -> ERROR: Incorrect command"@ }
        }
    } else {
        ServerRequestV::Invalid { message: " -> ERROR: Unknown command"@ }
    }
}

/// What a line typed to a server asks for (see [`server_request`]).
pub fn parse_server_request(input: &str) -> (r: ServerRequest)
    ensures
        r@ == server_request(input@),
{
    let w = line_words(input);
    if w[0] == "read".to_owned() {
        if w.len() == 2 {
            ServerRequest::Read { key: w[1].clone() }
        } else {
            ServerRequest::Invalid { message: " -> ERROR: Incorrect  command".to_owned() }
        }
    } else if w[0] == "write".to_owned() {
        if w.len() == 3 {
            ServerRequest::Write { key: w[1].clone(), value: w[2].as_str().as_bytes_vec() }
        } else {
            ServerRequest::Invalid { message: " -> ERROR: Incorrect command".to_owned() }
        }
    } else if w[0] == "show".to_owned() {
        if w.len() == 1 {
            ServerRequest::Show
        } else {
            ServerRequest::Invalid { message: " -> ERROR: Incorrect command".to_owned() }
        }
    } else {
        ServerRequest::Invalid { message: " -> ERROR: Unknown command".to_owned() }
    }
}

/// A client reads `get KEY` and `set KEY VALUE`, the value taken as the
/// UTF-8 bytes of its text; any other line gives the error text to show.
pub open spec fn client_command(input: Seq<char>) -> Result<CommandEntryV, Seq<char>> {
    let w = words(input);
    if w[0] == "get"@ {
        if w.len() == 2 {
            Ok(CommandEntryV::GetValue { key: w[1] })
        } else {
            Err(" -> ERROR: Incorrect  command"@)
        }
    } else if w[0] == "set"@ {
        if w.len() == 3 {
            Ok(CommandEntryV::SetValue { key: w[1], value: vstd::utf8::encode_utf8(w[2]) })
        } else {
            Err(" -> ERROR: Incorrect command"@)
        }
    } else {
        Err(" -> ERROR: Unknown command"@)
    }
}

/// The command that a line typed to a client asks for (see
/// [`client_command`]).
pub fn parse_client_command(input: &str) -> (r: Result<CommandEntry, String>)
    ensures
        match r {
            Ok(c) => client_command(input@) == Ok::<CommandEntryV, Seq<char>>(c@),
            Err(m) => client_command(input@) == Err::<CommandEntryV, Seq<char>>(m@),
        },
{
    let w = line_words(input);
    if w[0] == "get".to_owned() {
        if w.len() == 2 {
            Ok(CommandEntry::GetValue { key: w[1].clone() })
        } else {
            Err(" -> ERROR: Incorrect  command".to_owned())
        }
    } else if w[0] == "set".to_owned() {
        if w.len() == 3 {
            Ok(CommandEntry::SetValue { key: w[1].clone(), value: w[2].as_str().as_bytes_vec() })
        } else {
            Err(" -> ERROR: Incorrect command".to_owned())
        }
    } else {
        Err(" -> ERROR: Unknown command".to_owned())
    }
}

// ---------------------------------------------------------------- routing

/// The first port of the nodes that a client routes requests to.
pub const NODE_BASE_PORT: u64 = 64500;

/// The node that a request for `key` goes to: one node for every five keys,
/// counted from 1, and no further than the last peer (at least node 1);
/// node 0 for key 0.
pub open spec fn node_of_key(key: u64, number_of_peers: u64) -> u64 {
    if key == 0 {
        0
    } else {
        let full = (key + 4) / 5;
        let cap = if number_of_peers == 0 {
            1
        } else {
            number_of_peers
        };
        if full < cap {
            full as u64
        } else {
            cap
        }
    }
}

/// The node that a request for `key` goes to (see [`node_of_key`]).
pub fn select_node(key: u64, number_of_peers: u64) -> (node: u64)
    ensures
        node == node_of_key(key, number_of_peers),
{
    let mut node: u64 = 0;
    let mut number: u64 = 0;
    while number < key
        invariant_except_break
            number <= key,
            node == (number + 4) / 5,
            number > 0 ==> node < number_of_peers,
        ensures
            node == node_of_key(key, number_of_peers),
        decreases key - number,
    {
        if number % 5 == 0 {
            node = node + 1;
        }
        if number == key || node >= number_of_peers {
            break;
        }
        number = number + 1;
    }
    node
}

/// The address of node `node`.
pub open spec fn node_address_text(node: u64) -> Seq<char> {
    "127.0.0.1:"@ + decimal((NODE_BASE_PORT + node) as nat)
}

/// The address of node `node`.
pub fn node_address(node: u64) -> (r: String)
    requires
        node + NODE_BASE_PORT <= u64::MAX,
    ensures
        r@ == node_address_text(node),
{
    let mut address = "127.0.0.1:".to_owned();
    let port = u64_text(NODE_BASE_PORT + node);
    address.append(port.as_str());
    address
}

/// Where a client sends a request.
#[derive(Debug)]
pub enum Route {
    /// A put without a value, which is not sent.
    PutWithoutValue,
    /// Sent to `node` at `address`; `put` tells a put from a get.
    Send { node: u64, address: String, put: bool },
    /// Neither a full put nor a get.
    Unforeseen,
}

/// Whether a request message names its key: it has a second word, which
/// trimmed is a number.
pub open spec fn names_key(message: Seq<char>) -> bool {
    let w = split_spaces(message);
    w.len() >= 2 && parse_u64(trim(w[1])) is Some
}

/// Whether `r` is where a client sends the request `message` of kind
/// `action` (`put` or `get`) given `number_of_peers`: a put of two words is
/// refused; a get, or a request of three words, goes to the node of its key
/// (see [`node_of_key`]); anything else is unforeseen.
pub open spec fn routed(action: Seq<char>, message: Seq<char>, number_of_peers: u64, r: Route) -> bool {
    let w = split_spaces(message);
    let key = parse_u64(trim(w[1]))->0;
    if action == "put"@ && w.len() == 2 {
        r is PutWithoutValue
    } else if action == "get"@ || w.len() == 3 {
        r matches Route::Send { node, address, put } && node == node_of_key(key, number_of_peers)
            && address@ == node_address_text(node) && put == (action == "put"@)
    } else {
        r is Unforeseen
    }
}

/// Where a client sends the request `message` of kind `action` (see
/// [`routed`]).
pub fn route_request(action: &str, message: &str, number_of_peers: u64) -> (r: Route)
    requires
        names_key(message@),
    ensures
        routed(action@, message@, number_of_peers, r),
{
    let message_vector = split_str(message);
    let key_text = trim_str(message_vector[1].as_str());
    let key = match parse_u64_str(key_text.as_str()) {
        Some(k) => k,
        None => {
            return Route::Unforeseen;
        },
    };
    let put = action.to_owned() == "put".to_owned();
    if put && message_vector.len() == 2 {
        Route::PutWithoutValue
    } else if action.to_owned() == "get".to_owned() || message_vector.len() == 3 {
        let node = select_node(key, number_of_peers);
        assert(node <= key);
        Route::Send { node, address: node_address(node), put }
    } else {
        Route::Unforeseen
    }
}

} // verus!

verus! {

// ---------------------------------------------------------------- bincode

/// The `k` least significant bytes of `n`, lowest first.
pub open spec fn le_bytes(n: nat, k: nat) -> Seq<u8>
    decreases k,
{
    if k == 0 {
        Seq::empty()
    } else {
        seq![(n % 256) as u8] + le_bytes(n / 256, (k - 1) as nat)
    }
}

/// The number that the bytes `b` write, lowest first.
pub open spec fn le_value(b: Seq<u8>) -> nat
    decreases b.len(),
{
    if b.len() == 0 {
        0
    } else {
        b[0] as nat + 256 * le_value(b.drop_first())
    }
}

/// How bincode writes a string: the length of its UTF-8 bytes as eight
/// little-endian bytes, then those bytes.
pub open spec fn bincode_text(s: Seq<char>) -> Seq<u8> {
    let u = vstd::utf8::encode_utf8(s);
    le_bytes(u.len(), 8) + u
}

/// The number that bincode reads from the start of `b`: its first eight
/// bytes, little-endian; `None` where `b` is shorter.
pub open spec fn bincode_u64_of(b: Seq<u8>) -> Option<u64> {
    if b.len() >= 8 {
        Some(le_value(b.take(8)) as u64)
    } else {
        None
    }
}

/// The string that bincode reads from the start of `b`: a length `n` in
/// eight little-endian bytes, then `n` bytes of valid UTF-8 (bytes after
/// them are left alone); `None` otherwise.
pub open spec fn bincode_string_of(b: Seq<u8>) -> Option<Seq<char>> {
    if b.len() >= 8 {
        let n = le_value(b.take(8)) as int;
        if n <= b.len() - 8 && vstd::utf8::valid_utf8(b.subrange(8, 8 + n)) {
            Some(vstd::utf8::decode_utf8(b.subrange(8, 8 + n)))
        } else {
            None
        }
    } else {
        None
    }
}

/// `256` to the power `k`.
pub open spec fn byte_power(k: nat) -> nat
    decreases k,
{
    if k == 0 {
        1
    } else {
        256 * byte_power((k - 1) as nat)
    }
}

/// The bytes of a number read back as that number.
proof fn lemma_le_roundtrip(n: nat, k: nat)
    requires
        n < byte_power(k),
    ensures
        le_bytes(n, k).len() == k,
        le_value(le_bytes(n, k)) == n,
    decreases k,
{
    if k > 0 {
        let p = byte_power((k - 1) as nat);
        assert(n / 256 < p) by (nonlinear_arith)
            requires
                n < 256 * p,
        ;
        lemma_le_roundtrip(n / 256, (k - 1) as nat);
        let b = le_bytes(n, k);
        assert(b.drop_first() =~= le_bytes(n / 256, (k - 1) as nat));
        assert(b[0] as nat == n % 256);
    }
}

/// What bincode writes of a string it reads back as that string, whatever
/// bytes follow.
pub proof fn lemma_bincode_text_roundtrip(s: Seq<char>, rest: Seq<u8>)
    requires
        vstd::utf8::encode_utf8(s).len() <= u64::MAX,
    ensures
        bincode_string_of(bincode_text(s) + rest) == Some(s),
{
    let u = vstd::utf8::encode_utf8(s);
    let b = bincode_text(s) + rest;
    reveal_with_fuel(byte_power, 9);
    assert(byte_power(8) == 0x1_0000_0000_0000_0000);
    lemma_le_roundtrip(u.len(), 8);
    assert(b.take(8) =~= le_bytes(u.len(), 8));
    assert(b.subrange(8, 8 + u.len() as int) =~= u);
    vstd::utf8::encode_utf8_valid_utf8(s);
    vstd::utf8::encode_utf8_decode_utf8(s);
}

/// Encodes a string with `bincode::serialize`. Its fixed-width integer
/// encoding writes the byte length as a little-endian `u64`, then the
/// bytes; writing into a `Vec` with no size limit does not fail.
#[verifier::external_body]
fn bincode_encode_text(s: &str) -> (r: Vec<u8>)
    ensures
        r@ == bincode_text(s@),
{
    bincode::serialize(s).unwrap()
}

/// Decodes a string with `bincode::deserialize`: a little-endian `u64`
/// length, then that many bytes, which must be valid UTF-8; trailing bytes
/// are allowed. `None` where it returns an error.
#[verifier::external_body]
fn bincode_decode_text(b: &Vec<u8>) -> (r: Option<String>)
    ensures
        match r {
            Some(s) => bincode_string_of(b@) == Some(s@),
            None => bincode_string_of(b@) is None,
        },
{
    bincode::deserialize::<String>(b.as_slice()).ok()
}

/// Decodes a `u64` with `bincode::deserialize`: eight little-endian bytes;
/// trailing bytes are allowed. `None` where it returns an error.
#[verifier::external_body]
fn bincode_decode_u64(b: &Vec<u8>) -> (r: Option<u64>)
    ensures
        r == bincode_u64_of(b@),
{
    bincode::deserialize::<u64>(b.as_slice()).ok()
}

/// The key that a request message names (see [`names_key`]).
fn message_key(message: &str) -> (r: Option<u64>)
    ensures
        r is Some <==> names_key(message@),
{
    let w = split_str(message);
    if w.len() < 2 {
        return None;
    }
    let key_text = trim_str(w[1].as_str());
    parse_u64_str(key_text.as_str())
}

/// The number of peers that an update message of a client carries: the
/// `u64` that bincode reads from it; `None` where it holds none.
pub fn peers_update(message: &Vec<u8>) -> (r: Option<u64>)
    ensures
        r == bincode_u64_of(message@),
{
    bincode_decode_u64(message)
}

/// Where a client sends a request of kind `action` that reaches it as the
/// bincode bytes `message`, and the bytes it sends there: the request text
/// trimmed, in bincode. `None` where the bytes hold no string or the
/// string names no key.
pub fn route_message(action: &str, message: &Vec<u8>, number_of_peers: u64) -> (r: Option<(Route, Vec<u8>)>)
    ensures
        r is Some <==> (bincode_string_of(message@) matches Some(s) && names_key(s)),
        r matches Some(p) ==> routed(action@, bincode_string_of(message@)->0, number_of_peers, p.0)
            && p.1@ == bincode_text(trim(bincode_string_of(message@)->0)),
{
    let text = match bincode_decode_text(message) {
        Some(t) => t,
        None => {
            return None;
        },
    };
    if message_key(text.as_str()).is_none() {
        return None;
    }
    let route = route_request(action, text.as_str(), number_of_peers);
    let trimmed = trim_str(text.as_str());
    let bytes = bincode_encode_text(trimmed.as_str());
    Some((route, bytes))
}

} // verus!

verus! {

// ---------------------------------------------------------------- laws

/// A server line is read word by word: `read` takes exactly a key, `write`
/// exactly a key and a value (the UTF-8 bytes of the third word), `show`
/// nothing more; any other count of words is an incorrect command, and any
/// other first word an unknown one.
pub proof fn lemma_server_request_words(input: Seq<char>)
    ensures
        ({
            let w = words(input);
            let r = server_request(input);
            &&& w[0] == "read"@ ==> (r is Read <==> w.len() == 2)
            &&& w[0] == "read"@ && w.len() == 2 ==> r == ServerRequestV::Read { key: w[1] }
            &&& w[0] == "read"@ && w.len() != 2 ==> r == ServerRequestV::Invalid {
                message: " -> ERROR: Incorrect  command"@,
            }
            &&& w[0] == "write"@ ==> (r is Write <==> w.len() == 3)
            &&& w[0] == "write"@ && w.len() == 3 ==> r == ServerRequestV::Write {
                key: w[1],
                value: vstd::utf8::encode_utf8(w[2]),
            }
            &&& w[0] == "write"@ && w.len() != 3 ==> r == ServerRequestV::Invalid {
                message: " -> ERROR: Incorrect command"@,
            }
            &&& w[0] == "show"@ ==> (r is Show <==> w.len() == 1)
            &&& w[0] == "show"@ && w.len() != 1 ==> r == ServerRequestV::Invalid {
                message: " -> ERROR: Incorrect command"@,
            }
            &&& w[0] != "read"@ && w[0] != "write"@ && w[0] != "show"@ ==> r
                == ServerRequestV::Invalid { message: " -> ERROR: Unknown command"@ }
        }),
{
    lemma_split_spaces_nonempty(trim(input));
    reveal_strlit("read");
    reveal_strlit("write");
    reveal_strlit("show");
    assert("read"@ != "write"@ && "read"@ != "show"@ && "write"@ != "show"@) by {
        assert("read"@.len() != "write"@.len());
        assert("read"@[0] != "show"@[0]);
        assert("write"@.len() != "show"@.len());
    }
}

/// A client line is read word by word: `get` takes exactly a key, `set`
/// exactly a key and a value (the UTF-8 bytes of the third word); any other
/// count of words is an incorrect command, and any other first word an
/// unknown one.
pub proof fn lemma_client_command_words(input: Seq<char>)
    ensures
        ({
            let w = words(input);
            let r = client_command(input);
            &&& w[0] == "get"@ ==> (r is Ok <==> w.len() == 2)
            &&& w[0] == "get"@ && w.len() == 2 ==> r == Ok::<CommandEntryV, Seq<char>>(
                CommandEntryV::GetValue { key: w[1] },
            )
            &&& w[0] == "get"@ && w.len() != 2 ==> r == Err::<CommandEntryV, Seq<char>>(
                " -> ERROR: Incorrect  command"@,
            )
            &&& w[0] == "set"@ ==> (r is Ok <==> w.len() == 3)
            &&& w[0] == "set"@ && w.len() == 3 ==> r == Ok::<CommandEntryV, Seq<char>>(
                CommandEntryV::SetValue { key: w[1], value: vstd::utf8::encode_utf8(w[2]) },
            )
            &&& w[0] == "set"@ && w.len() != 3 ==> r == Err::<CommandEntryV, Seq<char>>(
                " -> ERROR: Incorrect command"@,
            )
            &&& w[0] != "get"@ && w[0] != "set"@ ==> r == Err::<CommandEntryV, Seq<char>>(
                " -> ERROR: Unknown command"@,
            )
        }),
{
    lemma_split_spaces_nonempty(trim(input));
    reveal_strlit("get");
    reveal_strlit("set");
    assert("get"@ != "set"@) by {
        assert("get"@[0] != "set"@[0]);
    }
}

/// The decimal text of a number is a numeral of it: digits only, no
/// leading zero but for zero itself, and its digits are worth the number;
/// read back, it gives the number.
pub proof fn lemma_decimal_numeral(n: nat)
    ensures
        decimal(n).len() >= 1,
        all_digits(decimal(n)),
        digits_value(decimal(n)) == n,
        n > 0 ==> decimal(n)[0] != '0',
        n <= u64::MAX ==> parse_u64(decimal(n)) == Some(n as u64),
    decreases n,
{
    let d = decimal(n);
    let c = digit_char(n % 10);
    assert(c as int == 48 + n % 10);
    assert(d.last() == c);
    if n < 10 {
        assert(d.drop_last() =~= Seq::<char>::empty());
        assert(digits_value(d) == digits_value(d.drop_last()) * 10 + (c as int - 48));
    }
    if n >= 10 {
        lemma_decimal_numeral(n / 10);
        let p = decimal(n / 10);
        assert(d.drop_last() =~= p);
        assert(all_digits(d)) by {
            assert forall|i: int| 0 <= i < d.len() implies '0' <= #[trigger] d[i] <= '9' by {
                if i < p.len() {
                    assert(d[i] == p[i]);
                }
            }
        }
        assert(d[0] == p[0]);
        assert((n / 10) * 10 + n % 10 == n);
        assert(digits_value(d) == digits_value(p) * 10 + (c as int - 48));
        assert(digits_value(p) * 10 == (n / 10) * 10);
    }
    assert(d.len() == 0 || d[0] != '+');
}

} // verus!

verus! {

/// Pieces put back together with a single space between each two.
pub open spec fn joined_with_spaces(ps: Seq<Seq<char>>) -> Seq<char>
    decreases ps.len(),
{
    if ps.len() == 0 {
        Seq::empty()
    } else if ps.len() == 1 {
        ps[0]
    } else {
        joined_with_spaces(ps.drop_last()) + seq![' '] + ps.last()
    }
}

/// Splitting on single spaces cuts a text into pieces that hold no space
/// and that, joined again with single spaces, give the text back.
pub proof fn lemma_split_spaces_pieces(s: Seq<char>)
    ensures
        joined_with_spaces(split_spaces(s)) == s,
        forall|i: int, j: int|
            0 <= i < split_spaces(s).len() && 0 <= j < split_spaces(s)[i].len() ==> #[trigger] split_spaces(s)[i][j] != ' ',
    decreases s.len(),
{
    lemma_split_spaces_nonempty(s);
    if s.len() > 0 {
        let p = s.drop_last();
        let t = split_spaces(p);
        lemma_split_spaces_pieces(p);
        lemma_split_spaces_nonempty(p);
        let u = split_spaces(s);
        if s.last() == ' ' {
            assert(u.drop_last() =~= t);
            assert(joined_with_spaces(u) == joined_with_spaces(t) + seq![' '] + Seq::<char>::empty());
            assert(s =~= p + seq![' '] + Seq::<char>::empty());
            assert forall|i: int, j: int| 0 <= i < u.len() && 0 <= j < u[i].len() implies #[trigger] u[i][j] != ' ' by {
                if i < t.len() {
                    assert(u[i] == t[i]);
                }
            }
        } else {
            let n = t.len() - 1;
            assert forall|i: int, j: int| 0 <= i < u.len() && 0 <= j < u[i].len() implies #[trigger] u[i][j] != ' ' by {
                if i < n {
                    assert(u[i] == t[i]);
                } else {
                    assert(u[i] == t[n].push(s.last()));
                    if j < t[n].len() {
                        assert(u[i][j] == t[n][j]);
                    }
                }
            }
            if t.len() == 1 {
                assert(joined_with_spaces(u) == u[0]);
                assert(joined_with_spaces(t) == t[0]);
                assert(s =~= p.push(s.last()));
            } else {
                assert(u.drop_last() =~= t.drop_last());
                assert(joined_with_spaces(u) == joined_with_spaces(t.drop_last()) + seq![' '] + t.last().push(s.last()));
                assert(joined_with_spaces(t) == joined_with_spaces(t.drop_last()) + seq![' '] + t.last());
                assert(s =~= p.push(s.last()));
                assert(joined_with_spaces(u) =~= joined_with_spaces(t).push(s.last()));
            }
        }
    }
}

/// Where the leading white space of a text ends.
proof fn lemma_leading_space_bounds(s: Seq<char>) -> (a: int)
    ensures
        a == leading_space(s),
        0 <= a <= s.len(),
        forall|j: int| 0 <= j < a ==> white_space(#[trigger] s[j]),
        a < s.len() ==> !white_space(s[a]),
    decreases s.len(),
{
    if s.len() > 0 && white_space(s[0]) {
        let r = lemma_leading_space_bounds(s.drop_first());
        assert forall|j: int| 0 <= j < r + 1 implies white_space(#[trigger] s[j]) by {
            if j > 0 {
                assert(s[j] == s.drop_first()[j - 1]);
            }
        }
        if r + 1 < s.len() {
            assert(s[r + 1] == s.drop_first()[r]);
        }
        r + 1
    } else {
        0
    }
}

/// Where a text ends once its trailing white space is dropped.
proof fn lemma_trim_end_bounds(t: Seq<char>) -> (k: int)
    ensures
        0 <= k <= t.len(),
        trim_end(t) == t.subrange(0, k),
        forall|j: int| k <= j < t.len() ==> white_space(#[trigger] t[j]),
        k > 0 ==> !white_space(t[k - 1]),
    decreases t.len(),
{
    if t.len() > 0 && white_space(t.last()) {
        let k = lemma_trim_end_bounds(t.drop_last());
        assert(t.drop_last().subrange(0, k) =~= t.subrange(0, k));
        assert forall|j: int| k <= j < t.len() implies white_space(#[trigger] t[j]) by {
            if j < t.len() - 1 {
                assert(t[j] == t.drop_last()[j]);
            }
        }
        if k > 0 {
            assert(t[k - 1] == t.drop_last()[k - 1]);
        }
        k
    } else {
        assert(t.subrange(0, t.len() as int) =~= t);
        t.len() as int
    }
}

/// Trimming keeps a stretch of the text that neither starts nor ends with
/// white space, and drops only white space before and after it.
pub proof fn lemma_trim_stretch(s: Seq<char>)
    ensures
        exists|a: int, b: int|
            0 <= a <= b <= s.len() && trim(s) == s.subrange(a, b) && (forall|i: int|
                0 <= i < a ==> white_space(#[trigger] s[i])) && (forall|i: int|
                b <= i < s.len() ==> white_space(#[trigger] s[i])),
        trim(s).len() > 0 ==> !white_space(trim(s)[0]) && !white_space(trim(s).last()),
{
    let a = lemma_leading_space_bounds(s);
    let t = s.subrange(a, s.len() as int);
    let k = lemma_trim_end_bounds(t);
    let b = a + k;
    assert forall|i: int| b <= i < s.len() implies white_space(#[trigger] s[i]) by {
        assert(s[i] == t[i - a]);
    }
    assert(t.subrange(0, k) =~= s.subrange(a, b));
    assert(trim(s) == s.subrange(a, b));
    if b > a {
        assert(trim(s)[0] == s[a]);
        assert(trim(s).last() == s[b - 1]);
    }
}

/// A client sends key 0 to node 0, and every other key to the node that
/// holds it, five keys to a node counted from node 1, with the last node
/// (at least node 1) taking all keys above it.
pub proof fn lemma_node_of_key_blocks(key: u64, number_of_peers: u64)
    ensures
        ({
            let node = node_of_key(key, number_of_peers) as int;
            let last = if number_of_peers == 0 {
                1
            } else {
                number_of_peers as int
            };
            &&& key == 0 ==> node == 0
            &&& key > 0 ==> 1 <= node <= last && key > 5 * (node - 1)
            &&& key > 0 && node < last ==> key <= 5 * node
        }),
{
}

} // verus!
