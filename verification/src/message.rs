//! The messages that peers exchange, and their encoding on the wire.
//!
//! Every message starts with a type byte:
//! - `0`, a text: a big-endian `u32` byte length, then that many bytes of UTF-8;
//! - `1`, a new name: a one-byte length, then that many bytes of UTF-8;
//! - `2`, a list of peers: a one-byte count of version 4 addresses, a one-byte
//!   count of version 6 addresses, then the octets of each address, the
//!   version 4 ones first.
use vstd::prelude::*;
use vstd::utf8::*;

use vstd::slice::{slice_subrange, slice_to_vec};

use crate::wire::{
    be_bytes, be_concat, be_value, lemma_be_bytes_len, lemma_be_bytes_of_value, lemma_be_concat_chunk,
    lemma_be_concat_len, lemma_be_value_bound, lemma_be_value_of_bytes, lemma_pow256_values, pow256,
    push_be, read_be,
};

verus! {

broadcast use {encode_utf8_valid_utf8, encode_utf8_decode_utf8, decode_utf8_encode_utf8};

#[verifier::external_type_specification]
#[verifier::external_body]
pub struct ExFromUtf8Error(std::string::FromUtf8Error);

/// std's `String::from_utf8`. Its documentation says that it fails exactly
/// when the bytes are not UTF-8, and otherwise gives the string whose UTF-8
/// encoding they are. Nothing is stated of the error it returns, which
/// carries the bytes and the position of the first bad sequence.
#[verifier::external_body]
fn string_from_utf8(bytes: Vec<u8>) -> (r: Result<String, std::string::FromUtf8Error>)
    ensures
        r is Ok <==> valid_utf8(bytes@),
        r matches Ok(s) ==> s@ == decode_utf8(bytes@),
{
    String::from_utf8(bytes)
}

/// A message between peers.
#[derive(Debug)]
pub enum PizzaMessage {
    Text { body: String },
    SetName { name: String },
    NewPeers { ipv4: Vec<u32>, ipv6: Vec<u128> },
}

/// What a message says, as values.
pub enum MessageModel {
    Text(Seq<char>),
    SetName(Seq<char>),
    NewPeers(Seq<u32>, Seq<u128>),
}

impl View for PizzaMessage {
    type V = MessageModel;

    open spec fn view(&self) -> MessageModel {
        match self {
            PizzaMessage::Text { body } => MessageModel::Text(body@),
            PizzaMessage::SetName { name } => MessageModel::SetName(name@),
            PizzaMessage::NewPeers { ipv4, ipv6 } => MessageModel::NewPeers(ipv4@, ipv6@),
        }
    }
}

/// Why bytes did not give a message.
#[derive(Debug)]
pub enum ParseError {
    /// The bytes end before the message does.
    UnexpectedEof,
    /// The type byte names no kind of message.
    InvalidType { ty: u8 },
    /// A text or a name is not UTF-8.
    Utf8(std::string::FromUtf8Error),
}

pub open spec fn ipv4_values(ips: Seq<u32>) -> Seq<nat> {
    ips.map_values(|ip: u32| ip as nat)
}

pub open spec fn ipv6_values(ips: Seq<u128>) -> Seq<nat> {
    ips.map_values(|ip: u128| ip as nat)
}

/// The bytes that a message is written as. Lengths and counts that do not
/// fit their field are cut to their low-order bytes, as the casts that write
/// them do; the contents are written whole.
pub open spec fn encoded(m: MessageModel) -> Seq<u8> {
    match m {
        MessageModel::Text(body) => {
            let b = encode_utf8(body);
            seq![0u8] + be_bytes(b.len() % pow256(4), 4) + b
        },
        MessageModel::SetName(name) => {
            let b = encode_utf8(name);
            seq![1u8, (b.len() % 256) as u8] + b
        },
        MessageModel::NewPeers(v4, v6) => seq![
            2u8,
            (v4.len() % 256) as u8,
            (v6.len() % 256) as u8,
        ] + be_concat(ipv4_values(v4), 4) + be_concat(ipv6_values(v6), 16),
    }
}

/// A message whose lengths and counts fit the fields that carry them.
pub open spec fn fits_on_wire(m: MessageModel) -> bool {
    match m {
        MessageModel::Text(body) => encode_utf8(body).len() < pow256(4),
        MessageModel::SetName(name) => encode_utf8(name).len() < 256,
        MessageModel::NewPeers(v4, v6) => v4.len() < 256 && v6.len() < 256,
    }
}

/// The values of `count` consecutive big-endian fields of `width` bytes.
pub open spec fn chunk_values(bytes: Seq<u8>, count: nat, width: nat) -> Seq<nat> {
    Seq::new(count, |i: int| be_value(bytes.subrange(i * width, (i + 1) * width)))
}

/// What reading the front of some bytes gives.
pub enum ReadModel {
    /// A message, and the number of bytes it took.
    Message(nat, MessageModel),
    /// The bytes end before the message does: inside its type byte or
    /// inside a length or count field when `read` may be asked.
    Incomplete,
    /// The first byte is no type of message.
    InvalidType(u8),
    /// A text or a name, of the given number of bytes in all, is not UTF-8.
    InvalidUtf8(nat),
}

pub open spec fn decoded_text(b: Seq<u8>) -> ReadModel {
    if b.len() < 5 {
        ReadModel::Incomplete
    } else {
        let n = be_value(b.subrange(1, 5));
        if b.len() < 5 + n {
            ReadModel::Incomplete
        } else {
            let body = b.subrange(5, 5 + n as int);
            if valid_utf8(body) {
                ReadModel::Message(5 + n, MessageModel::Text(decode_utf8(body)))
            } else {
                ReadModel::InvalidUtf8(5 + n)
            }
        }
    }
}

pub open spec fn decoded_name(b: Seq<u8>) -> ReadModel {
    if b.len() < 2 {
        ReadModel::Incomplete
    } else {
        let n = b[1] as nat;
        if b.len() < 2 + n {
            ReadModel::Incomplete
        } else {
            let name = b.subrange(2, 2 + n as int);
            if valid_utf8(name) {
                ReadModel::Message(2 + n, MessageModel::SetName(decode_utf8(name)))
            } else {
                ReadModel::InvalidUtf8(2 + n)
            }
        }
    }
}

pub open spec fn decoded_peers(b: Seq<u8>) -> ReadModel {
    if b.len() < 3 {
        ReadModel::Incomplete
    } else {
        let c4 = b[1] as nat;
        let c6 = b[2] as nat;
        let end6: int = 3 + 4 * (c4 as int);
        let end: int = end6 + 16 * (c6 as int);
        if b.len() < end {
            ReadModel::Incomplete
        } else {
            let v4 = chunk_values(b.subrange(3, end6), c4, 4).map_values(|v: nat| v as u32);
            let v6 = chunk_values(b.subrange(end6, end), c6, 16).map_values(|v: nat| v as u128);
            ReadModel::Message(end as nat, MessageModel::NewPeers(v4, v6))
        }
    }
}

/// What reading a message from the front of `b` gives.
pub open spec fn decoded(b: Seq<u8>) -> ReadModel {
    if b.len() == 0 {
        ReadModel::Incomplete
    } else if b[0] == 0 {
        decoded_text(b)
    } else if b[0] == 1 {
        decoded_name(b)
    } else if b[0] == 2 {
        decoded_peers(b)
    } else {
        ReadModel::InvalidType(b[0])
    }
}

/// The bytes end inside the contents of a message, after its type byte and
/// its length or count fields are whole.
pub open spec fn ends_in_body(b: Seq<u8>) -> bool {
    &&& b.len() > 0
    &&& {
        ||| b[0] == 0 && b.len() >= 5 && b.len() < 5 + be_value(b.subrange(1, 5))
        ||| b[0] == 1 && b.len() >= 2 && b.len() < 2 + b[1]
        ||| b[0] == 2 && b.len() >= 3 && b.len() < 3 + 4 * b[1] + 16 * b[2]
    }
}

/// The result of `PizzaMessage::read` agrees with the model of reading: on
/// success the bytes taken and the message; on failure the bytes to skip
/// (none when more bytes are needed, the type byte for an unknown type, the
/// whole text or name when it is not UTF-8) and the error.
pub open spec fn read_agrees(
    r: Result<(usize, PizzaMessage), (usize, ParseError)>,
    model: ReadModel,
) -> bool {
    match r {
        Ok((n, m)) => model == ReadModel::Message(n as nat, m@),
        Err((n, e)) => match e {
            ParseError::UnexpectedEof => model == ReadModel::Incomplete && n == 0,
            ParseError::InvalidType { ty } => model == ReadModel::InvalidType(ty) && n == 1,
            ParseError::Utf8(_) => model == ReadModel::InvalidUtf8(n as nat),
        },
    }
}


/// Appends `bytes` to `out`.
pub(crate) fn append_bytes(out: &mut Vec<u8>, bytes: &[u8])
    ensures
        final(out)@ == old(out)@ + bytes@,
{
    let ghost start = out@;
    let mut i: usize = 0;
    while i < bytes.len()
        invariant
            i <= bytes@.len(),
            out@ == start + bytes@.take(i as int),
        decreases bytes@.len() - i,
    {
        out.push(bytes[i]);
        i = i + 1;
        assert(out@ =~= start + bytes@.take(i as int));
    }
    assert(bytes@.take(i as int) =~= bytes@);
}

/// Appends the octets of each version 4 address.
fn write_ipv4s(out: &mut Vec<u8>, ips: &Vec<u32>)
    ensures
        final(out)@ == old(out)@ + be_concat(ipv4_values(ips@), 4),
{
    let ghost start = out@;
    let mut i: usize = 0;
    assert(ipv4_values(ips@.take(0)) =~= Seq::<nat>::empty());
    while i < ips.len()
        invariant
            i <= ips@.len(),
            out@ == start + be_concat(ipv4_values(ips@.take(i as int)), 4),
        decreases ips@.len() - i,
    {
        let ghost before = ipv4_values(ips@.take(i as int));
        push_be(out, ips[i] as u128, 4);
        proof {
            let after = ipv4_values(ips@.take(i + 1));
            assert(after.drop_last() =~= before);
            assert(after.last() == ips@[i as int] as nat);
        }
        i = i + 1;
        assert(out@ =~= start + be_concat(ipv4_values(ips@.take(i as int)), 4));
    }
    assert(ips@.take(i as int) =~= ips@);
}

/// Appends the octets of each version 6 address.
fn write_ipv6s(out: &mut Vec<u8>, ips: &Vec<u128>)
    ensures
        final(out)@ == old(out)@ + be_concat(ipv6_values(ips@), 16),
{
    let ghost start = out@;
    let mut i: usize = 0;
    assert(ipv6_values(ips@.take(0)) =~= Seq::<nat>::empty());
    while i < ips.len()
        invariant
            i <= ips@.len(),
            out@ == start + be_concat(ipv6_values(ips@.take(i as int)), 16),
        decreases ips@.len() - i,
    {
        let ghost before = ipv6_values(ips@.take(i as int));
        push_be(out, ips[i], 16);
        proof {
            let after = ipv6_values(ips@.take(i + 1));
            assert(after.drop_last() =~= before);
            assert(after.last() == ips@[i as int] as nat);
        }
        i = i + 1;
        assert(out@ =~= start + be_concat(ipv6_values(ips@.take(i as int)), 16));
    }
    assert(ips@.take(i as int) =~= ips@);
}

/// Reads `count` version 4 addresses, four octets each.
fn read_ipv4s(bytes: &[u8], count: usize) -> (ips: Vec<u32>)
    requires
        bytes@.len() == count * 4,
    ensures
        ips@ == chunk_values(bytes@, count as nat, 4).map_values(|v: nat| v as u32),
{
    let len = bytes.len();
    let mut ips: Vec<u32> = Vec::new();
    let mut i: usize = 0;
    proof {
        lemma_pow256_values();
    }
    while i < count
        invariant
            i <= count,
            bytes@.len() == count * 4,
            len == bytes@.len(),
            pow256(4) == 0x1_0000_0000,
            ips@ == chunk_values(bytes@, i as nat, 4).map_values(|v: nat| v as u32),
        decreases count - i,
    {
        let v = read_be(bytes, i * 4, 4);
        proof {
            lemma_be_value_bound(bytes@.subrange(i * 4, i * 4 + 4));
        }
        ips.push(v as u32);
        i = i + 1;
        assert(ips@ =~= chunk_values(bytes@, i as nat, 4).map_values(|v: nat| v as u32));
    }
    ips
}

/// Reads `count` version 6 addresses, sixteen octets each.
fn read_ipv6s(bytes: &[u8], count: usize) -> (ips: Vec<u128>)
    requires
        bytes@.len() == count * 16,
    ensures
        ips@ == chunk_values(bytes@, count as nat, 16).map_values(|v: nat| v as u128),
{
    let len = bytes.len();
    let mut ips: Vec<u128> = Vec::new();
    let mut i: usize = 0;
    while i < count
        invariant
            i <= count,
            bytes@.len() == count * 16,
            len == bytes@.len(),
            ips@ == chunk_values(bytes@, i as nat, 16).map_values(|v: nat| v as u128),
        decreases count - i,
    {
        let v = read_be(bytes, i * 16, 16);
        ips.push(v);
        i = i + 1;
        assert(ips@ =~= chunk_values(bytes@, i as nat, 16).map_values(|v: nat| v as u128));
    }
    ips
}

impl PizzaMessage {
    /// Whether `source` ends inside the contents of a message, after its
    /// type byte and its length or count fields.
    pub fn ends_inside_body(source: &[u8]) -> (r: bool)
        ensures
            r == ends_in_body(source@),
    {
        proof {
            lemma_pow256_values();
        }
        if source.len() == 0 {
            return false;
        }
        let ty = source[0];
        if ty == 0 {
            if source.len() < 5 {
                return false;
            }
            let n = read_be(source, 1, 4);
            proof {
                lemma_be_value_bound(source@.subrange(1, 5));
            }
            ((source.len() - 5) as u128) < n
        } else if ty == 1 {
            source.len() >= 2 && source.len() - 2 < source[1] as usize
        } else if ty == 2 {
            source.len() >= 3 && source.len() - 3 < 4 * (source[1] as usize) + 16 * (
            source[2] as usize)
        } else {
            false
        }
    }

    /// Reads a message from the front of `source`, which holds every byte
    /// still to come. On success gives the number of bytes that the message
    /// took and the message; on failure the number of bytes to skip before
    /// reading on, and why. When the bytes end inside a message's contents
    /// the reading never ends, waiting for bytes that will not come; such
    /// bytes are not read.
    pub fn read(source: &[u8]) -> (r: Result<(usize, PizzaMessage), (usize, ParseError)>)
        requires
            !ends_in_body(source@),
        ensures
            read_agrees(r, decoded(source@)),
    {
        if source.len() == 0 {
            return Err((0, ParseError::UnexpectedEof));
        }
        let ty = source[0];
        if ty == 0 {
            Self::read_text(source)
        } else if ty == 1 {
            Self::read_set_name(source)
        } else if ty == 2 {
            Self::read_new_peers(source)
        } else {
            Err((1, ParseError::InvalidType { ty }))
        }
    }

    fn read_text(source: &[u8]) -> (r: Result<(usize, PizzaMessage), (usize, ParseError)>)
        requires
            source@.len() >= 1,
            source@[0] == 0,
            !ends_in_body(source@),
        ensures
            read_agrees(r, decoded_text(source@)),
    {
        if source.len() < 5 {
            return Err((0, ParseError::UnexpectedEof));
        }
        let n = read_be(source, 1, 4);
        proof {
            lemma_be_value_bound(source@.subrange(1, 5));
            lemma_pow256_values();
        }
        let n = n as usize;
        let body = slice_to_vec(slice_subrange(source, 5, 5 + n));
        match string_from_utf8(body) {
            Ok(body) => Ok((5 + n, PizzaMessage::Text { body })),
            Err(e) => Err((5 + n, ParseError::Utf8(e))),
        }
    }

    fn read_set_name(source: &[u8]) -> (r: Result<(usize, PizzaMessage), (usize, ParseError)>)
        requires
            source@.len() >= 1,
            source@[0] == 1,
            !ends_in_body(source@),
        ensures
            read_agrees(r, decoded_name(source@)),
    {
        if source.len() < 2 {
            return Err((0, ParseError::UnexpectedEof));
        }
        let n = source[1] as usize;
        let name = slice_to_vec(slice_subrange(source, 2, 2 + n));
        match string_from_utf8(name) {
            Ok(name) => Ok((2 + n, PizzaMessage::SetName { name })),
            Err(e) => Err((2 + n, ParseError::Utf8(e))),
        }
    }

    fn read_new_peers(source: &[u8]) -> (r: Result<(usize, PizzaMessage), (usize, ParseError)>)
        requires
            source@.len() >= 1,
            source@[0] == 2,
            !ends_in_body(source@),
        ensures
            read_agrees(r, decoded_peers(source@)),
    {
        if source.len() < 3 {
            return Err((0, ParseError::UnexpectedEof));
        }
        let ipv4_count = source[1] as usize;
        let ipv6_count = source[2] as usize;
        let end4 = 3 + 4 * ipv4_count;
        let end = end4 + 16 * ipv6_count;
        let ipv4 = read_ipv4s(slice_subrange(source, 3, end4), ipv4_count);
        let ipv6 = read_ipv6s(slice_subrange(source, end4, end), ipv6_count);
        Ok((end, PizzaMessage::NewPeers { ipv4, ipv6 }))
    }

    /// The bytes that this message is sent as.
    pub fn write(&self) -> (bytes: Vec<u8>)
        ensures
            bytes@ == encoded(self@),
    {
        let mut out: Vec<u8> = Vec::new();
        proof {
            lemma_pow256_values();
        }
        match self {
            PizzaMessage::Text { body } => {
                let b = body.as_str().as_bytes();
                out.push(0u8);
                let len = b.len();
                push_be(&mut out, ((len as u64) % 0x1_0000_0000u64) as u128, 4);
                append_bytes(&mut out, b);
                assert(out@ =~= encoded(self@));
            },
            PizzaMessage::SetName { name } => {
                let b = name.as_str().as_bytes();
                out.push(1u8);
                out.push((b.len() % 256) as u8);
                append_bytes(&mut out, b);
                assert(out@ =~= encoded(self@));
            },
            PizzaMessage::NewPeers { ipv4, ipv6 } => {
                out.push(2u8);
                out.push((ipv4.len() % 256) as u8);
                out.push((ipv6.len() % 256) as u8);
                write_ipv4s(&mut out, ipv4);
                write_ipv6s(&mut out, ipv6);
                assert(out@ =~= encoded(self@));
            },
        }
        out
    }
}

/// Fields cut from the big-endian writing of some values give the values back.
proof fn lemma_chunks_of_concat(values: Seq<nat>, width: nat)
    requires
        forall|i: int| 0 <= i < values.len() ==> #[trigger] values[i] < pow256(width),
    ensures
        chunk_values(be_concat(values, width), values.len(), width) == values,
{
    let bytes = be_concat(values, width);
    assert forall|i: int| 0 <= i < values.len() implies #[trigger] chunk_values(
        bytes,
        values.len(),
        width,
    )[i] == values[i] by {
        lemma_be_concat_chunk(values, width, i);
        lemma_be_value_of_bytes(values[i], width);
    }
    assert(chunk_values(bytes, values.len(), width) =~= values);
}

/// Writing the values of the fields of some bytes gives the bytes back.
proof fn lemma_concat_of_chunks(bytes: Seq<u8>, count: nat, width: nat)
    requires
        bytes.len() == count * width,
    ensures
        be_concat(chunk_values(bytes, count, width), width) == bytes,
    decreases count,
{
    if count == 0 {
        assert(bytes.len() == 0) by (nonlinear_arith)
            requires
                bytes.len() == count * width,
                count == 0,
        ;
        assert(be_concat(chunk_values(bytes, count, width), width) =~= bytes);
    } else {
        let k = (count - 1) as nat;
        let split = k * width;
        assert(split + width == count * width) by (nonlinear_arith)
            requires
                k == count - 1,
                split == k * width,
        ;
        let front = bytes.take(split as int);
        let values = chunk_values(bytes, count, width);
        assert forall|i: int| 0 <= i < k implies #[trigger] values[i] == chunk_values(
            front,
            k,
            width,
        )[i] by {
            assert((i + 1) * width <= k * width) by (nonlinear_arith)
                requires
                    i + 1 <= k,
            ;
            assert(0 <= i * width) by (nonlinear_arith)
                requires
                    0 <= i,
            ;
            assert((i + 1) * width == i * width + width) by (nonlinear_arith);
            assert(front.subrange(i * width, (i + 1) * width) =~= bytes.subrange(
                i * width,
                (i + 1) * width,
            ));
        }
        assert(values.drop_last() =~= chunk_values(front, k, width));
        lemma_concat_of_chunks(front, k, width);
        let last = bytes.subrange(split as int, (split + width) as int);
        assert(k * width == split && (k + 1) * width == split + width) by (nonlinear_arith)
            requires
                split == k * width,
        ;
        assert(values.last() == be_value(last));
        lemma_be_bytes_of_value(last);
        assert(front + last =~= bytes);
    }
}

proof fn lemma_ipv4_values_fit(v4: Seq<u32>)
    ensures
        forall|i: int| 0 <= i < v4.len() ==> #[trigger] ipv4_values(v4)[i] < pow256(4),
        ipv4_values(v4).len() == v4.len(),
{
    lemma_pow256_values();
}

proof fn lemma_ipv6_values_fit(v6: Seq<u128>)
    ensures
        forall|i: int| 0 <= i < v6.len() ==> #[trigger] ipv6_values(v6)[i] < pow256(16),
        ipv6_values(v6).len() == v6.len(),
{
    lemma_pow256_values();
}

proof fn lemma_read_of_write_text(body: Seq<char>, rest: Seq<u8>)
    requires
        fits_on_wire(MessageModel::Text(body)),
    ensures
        decoded(encoded(MessageModel::Text(body)) + rest) == ReadModel::Message(
            encoded(MessageModel::Text(body)).len(),
            MessageModel::Text(body),
        ),
{
    lemma_pow256_values();
    let m = MessageModel::Text(body);
    let b = encoded(m) + rest;
    let e = encode_utf8(body);
    let n = e.len();
    lemma_be_bytes_len(n, 4);
    lemma_be_value_of_bytes(n, 4);
    assert(n % pow256(4) == n);
    assert(b.subrange(1, 5) =~= be_bytes(n, 4));
    assert(b.subrange(5, 5 + n as int) =~= e);
    assert(decoded_text(b) == ReadModel::Message(encoded(m).len(), m));
}

proof fn lemma_read_of_write_name(name: Seq<char>, rest: Seq<u8>)
    requires
        fits_on_wire(MessageModel::SetName(name)),
    ensures
        decoded(encoded(MessageModel::SetName(name)) + rest) == ReadModel::Message(
            encoded(MessageModel::SetName(name)).len(),
            MessageModel::SetName(name),
        ),
{
    let m = MessageModel::SetName(name);
    let b = encoded(m) + rest;
    let e = encode_utf8(name);
    assert(b[1] == e.len());
    assert(b.subrange(2, 2 + e.len() as int) =~= e);
    assert(decoded_name(b) == ReadModel::Message(encoded(m).len(), m));
}

proof fn lemma_read_of_write_peers(v4: Seq<u32>, v6: Seq<u128>, rest: Seq<u8>)
    requires
        fits_on_wire(MessageModel::NewPeers(v4, v6)),
    ensures
        decoded(encoded(MessageModel::NewPeers(v4, v6)) + rest) == ReadModel::Message(
            encoded(MessageModel::NewPeers(v4, v6)).len(),
            MessageModel::NewPeers(v4, v6),
        ),
{
    let m = MessageModel::NewPeers(v4, v6);
    let b = encoded(m) + rest;
    let c4 = v4.len();
    let c6 = v6.len();
    let w4 = ipv4_values(v4);
    let w6 = ipv6_values(v6);
    lemma_be_concat_len(w4, 4);
    lemma_be_concat_len(w6, 16);
    lemma_ipv4_values_fit(v4);
    lemma_ipv6_values_fit(v6);
    let end6: int = 3 + 4 * (c4 as int);
    let end: int = end6 + 16 * (c6 as int);
    assert(b[1] == c4 && b[2] == c6);
    assert(b.subrange(3, end6) =~= be_concat(w4, 4));
    assert(b.subrange(end6, end) =~= be_concat(w6, 16));
    lemma_chunks_of_concat(w4, 4);
    lemma_chunks_of_concat(w6, 16);
    lemma_pow256_values();
    assert(chunk_values(b.subrange(3, end6), c4, 4).map_values(|v: nat| v as u32) =~= v4);
    assert(chunk_values(b.subrange(end6, end), c6, 16).map_values(|v: nat| v as u128) =~= v6);
    assert(decoded_peers(b) == ReadModel::Message(encoded(m).len(), m));
}

/// Reading what a message is written as gives the message back, and takes
/// exactly its bytes, whatever follows them; for every message whose lengths
/// and counts fit their fields.
pub proof fn lemma_read_of_write(m: MessageModel, rest: Seq<u8>)
    requires
        fits_on_wire(m),
    ensures
        decoded(encoded(m) + rest) == ReadModel::Message(encoded(m).len(), m),
{
    match m {
        MessageModel::Text(body) => lemma_read_of_write_text(body, rest),
        MessageModel::SetName(name) => lemma_read_of_write_name(name, rest),
        MessageModel::NewPeers(v4, v6) => lemma_read_of_write_peers(v4, v6, rest),
    }
}

/// Writing a message that was read gives back exactly the bytes it was
/// read from; and its lengths and counts fit their fields.
pub proof fn lemma_write_of_read(b: Seq<u8>)
    ensures
        decoded(b) matches ReadModel::Message(n, m) ==> {
            &&& fits_on_wire(m)
            &&& encoded(m) == b.take(n as int)
        },
{
    lemma_pow256_values();
    if let ReadModel::Message(n, m) = decoded(b) {
        if b[0] == 0 {
            let len_bytes = b.subrange(1, 5);
            let l = be_value(len_bytes);
            lemma_be_value_bound(len_bytes);
            lemma_be_bytes_of_value(len_bytes);
            let body = b.subrange(5, 5 + l as int);
            assert(encode_utf8(decode_utf8(body)) == body);
            assert(encoded(m) =~= b.take(n as int));
        } else if b[0] == 1 {
            let name = b.subrange(2, 2 + b[1] as int);
            assert(encode_utf8(decode_utf8(name)) == name);
            assert(encoded(m) =~= b.take(n as int));
        } else {
            let c4 = b[1] as nat;
            let c6 = b[2] as nat;
            let end6: int = 3 + 4 * (c4 as int);
            let end: int = end6 + 16 * (c6 as int);
            let s4 = b.subrange(3, end6);
            let s6 = b.subrange(end6, end);
            let k4 = chunk_values(s4, c4, 4);
            let k6 = chunk_values(s6, c6, 16);
            lemma_concat_of_chunks(s4, c4, 4);
            lemma_concat_of_chunks(s6, c6, 16);
            assert forall|i: int| 0 <= i < c4 implies #[trigger] k4[i] < pow256(4) by {
                assert(0 <= i * 4 && (i + 1) * 4 <= s4.len());
                lemma_be_value_bound(s4.subrange(i * 4, (i + 1) * 4));
            }
            assert forall|i: int| 0 <= i < c6 implies #[trigger] k6[i] < pow256(16) by {
                assert(0 <= i * 16 && (i + 1) * 16 <= s6.len());
                lemma_be_value_bound(s6.subrange(i * 16, (i + 1) * 16));
            }
            assert(ipv4_values(k4.map_values(|v: nat| v as u32)) =~= k4);
            assert(ipv6_values(k6.map_values(|v: nat| v as u128)) =~= k6);
            assert(encoded(m) =~= b.take(n as int));
        }
    }
}

/// The bytes of several messages written one after the other.
pub open spec fn encoded_all(ms: Seq<MessageModel>) -> Seq<u8>
    decreases ms.len(),
{
    if ms.len() == 0 {
        seq![]
    } else {
        encoded(ms[0]) + encoded_all(ms.drop_first())
    }
}

/// Reading `count` messages one after the other from the front of `b`,
/// each from where the one before ended.
pub open spec fn decoded_sequence(b: Seq<u8>, count: nat) -> Option<Seq<MessageModel>>
    decreases count,
{
    if count == 0 {
        Some(seq![])
    } else {
        match decoded(b) {
            ReadModel::Message(n, m) => match decoded_sequence(b.skip(n as int), (count - 1) as nat) {
                Some(rest) => Some(seq![m] + rest),
                None => None,
            },
            _ => None,
        }
    }
}

/// Messages written one after the other are read back one after the other,
/// in order, each whole: for every sequence of messages whose lengths and
/// counts fit their fields.
pub proof fn lemma_read_sequence_of_writes(ms: Seq<MessageModel>)
    requires
        forall|i: int| 0 <= i < ms.len() ==> fits_on_wire(#[trigger] ms[i]),
    ensures
        decoded_sequence(encoded_all(ms), ms.len()) == Some(ms),
    decreases ms.len(),
{
    if ms.len() > 0 {
        let tail = ms.drop_first();
        assert forall|i: int| 0 <= i < tail.len() implies fits_on_wire(#[trigger] tail[i]) by {
            assert(tail[i] == ms[i + 1]);
        }
        lemma_read_sequence_of_writes(tail);
        let rest = encoded_all(tail);
        lemma_read_of_write(ms[0], rest);
        let b = encoded_all(ms);
        assert(b.skip(encoded(ms[0]).len() as int) =~= rest);
        assert(seq![ms[0]] + tail =~= ms);
    }
}

} // verus!
