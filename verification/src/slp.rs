//! The Minecraft server list ping wire format: VarInts, length-prefixed strings,
//! big-endian integers, the request packets and the framing of the status reply.

use vstd::prelude::*;
use std::string::FromUtf8Error;

verus! {

// ---------------------------------------------------------------------------
// Mathematical model of the encodings
// ---------------------------------------------------------------------------

/// The VarInt encoding of a non-negative number: seven bits per byte, least
/// significant group first, the high bit of every byte but the last set.
pub open spec fn varint_encode(v: nat) -> Seq<u8>
    decreases v,
{
    if v < 128 {
        seq![v as u8]
    } else {
        seq![(v % 128 + 128) as u8] + varint_encode(v / 128)
    }
}

/// The number carried by the low seven bits of each byte, least significant group first.
pub open spec fn varint_sum(s: Seq<u8>) -> nat
    decreases s.len(),
{
    if s.len() == 0 {
        0
    } else {
        (s[0] % 128) as nat + 128 * varint_sum(s.drop_first())
    }
}

/// `x` reduced modulo 2^32 and read as a two's complement 32-bit number.
pub open spec fn wrap_i32(x: nat) -> i32 {
    let m = x % 0x1_0000_0000;
    if m < 0x8000_0000 {
        m as i32
    } else {
        (m - 0x1_0000_0000) as i32
    }
}

/// 128 to the power `k`.
pub open spec fn pow128(k: nat) -> nat
    decreases k,
{
    if k == 0 {
        1
    } else {
        128 * pow128((k - 1) as nat)
    }
}

/// How a VarInt read that starts at `s[k]` ends.
pub enum VarIntShape {
    /// The byte at the given (exclusive) end index has its high bit clear.
    Complete(nat),
    /// Five bytes were read and all of them had the high bit set.
    TooLong,
    /// The bytes ran out first.
    Truncated,
}

/// Shape of a VarInt read from `s`, given that the bytes `s[0..k]` all had the high bit set.
pub open spec fn varint_shape_from(s: Seq<u8>, k: nat) -> VarIntShape
    decreases 5 - k,
{
    if k >= s.len() {
        VarIntShape::Truncated
    } else if s[k as int] < 128 {
        VarIntShape::Complete(k + 1)
    } else if k >= 4 {
        VarIntShape::TooLong
    } else {
        varint_shape_from(s, k + 1)
    }
}

/// The bytes of `buf` from position `c` on (empty when `c` is past the end).
pub open spec fn unread(buf: Seq<u8>, c: nat) -> Seq<u8> {
    if c <= buf.len() {
        buf.subrange(c as int, buf.len() as int)
    } else {
        Seq::empty()
    }
}

/// The largest of two numbers.
pub open spec fn max_nat(a: nat, b: nat) -> nat {
    if a >= b { a } else { b }
}

/// The cursor value that a failed read reports: one past the end, or one past
/// the cursor when it already stands beyond the end.
pub open spec fn overrun_cursor(buf: Seq<u8>, c: nat) -> nat {
    max_nat(c, buf.len()) + 1
}

/// The result of reading a VarInt from `buf` at cursor `c`.
pub open spec fn var_int_result(buf: Seq<u8>, c: nat) -> Result<i32, VarIntError> {
    let s = unread(buf, c);
    match varint_shape_from(s, 0) {
        VarIntShape::Complete(n) => Ok(wrap_i32(varint_sum(s.take(n as int)))),
        VarIntShape::TooLong => Err(VarIntError::Oversized),
        VarIntShape::Truncated => Err(
            VarIntError::Cursor(CursorError::OutOfBounds { cursor: overrun_cursor(buf, c) as usize }),
        ),
    }
}

/// The cursor after reading a VarInt from `buf` at cursor `c`.
pub open spec fn var_int_cursor(buf: Seq<u8>, c: nat) -> nat {
    match varint_shape_from(unread(buf, c), 0) {
        VarIntShape::Complete(n) => c + n,
        VarIntShape::TooLong => c + 5,
        VarIntShape::Truncated => overrun_cursor(buf, c),
    }
}

/// Whether `n` bytes can be read from `buf` at cursor `c`.
pub open spec fn bytes_available(buf: Seq<u8>, c: nat, n: nat) -> bool {
    n == 0 || c + n <= buf.len()
}

/// The result of reading `n` raw bytes from `buf` at cursor `c`.
pub open spec fn bytes_result(buf: Seq<u8>, c: nat, n: nat) -> Result<Seq<u8>, CursorError> {
    if bytes_available(buf, c, n) {
        if n == 0 {
            Ok(Seq::empty())
        } else {
            Ok(buf.subrange(c as int, (c + n) as int))
        }
    } else {
        Err(CursorError::OutOfBounds { cursor: overrun_cursor(buf, c) as usize })
    }
}

/// The cursor after reading `n` raw bytes from `buf` at cursor `c`.
pub open spec fn bytes_cursor(buf: Seq<u8>, c: nat, n: nat) -> nat {
    if bytes_available(buf, c, n) {
        c + n
    } else {
        overrun_cursor(buf, c)
    }
}

/// The buffer after writing one byte at cursor `c`: the buffer is cut or padded
/// with copies of `b` to length `c + 1`.
pub open spec fn write_one(buf: Seq<u8>, c: nat, b: u8) -> Seq<u8> {
    if c + 1 <= buf.len() {
        buf.subrange(0, (c + 1) as int)
    } else {
        buf + Seq::new((c + 1 - buf.len()) as nat, |i: int| b)
    }
}

/// The buffer after writing the bytes `bs` one by one starting at cursor `c`.
pub open spec fn write_all(buf: Seq<u8>, c: nat, bs: Seq<u8>) -> Seq<u8>
    decreases bs.len(),
{
    if bs.len() == 0 {
        buf
    } else {
        write_all(write_one(buf, c, bs[0]), c + 1, bs.drop_first())
    }
}

/// The big-endian representation of `x` in `n` bytes (`x` taken modulo 256^n).
pub open spec fn be_bytes(x: nat, n: nat) -> Seq<u8>
    decreases n,
{
    if n == 0 {
        Seq::empty()
    } else {
        be_bytes(x / 256, (n - 1) as nat).push((x % 256) as u8)
    }
}

/// Why reading a length-prefixed string failed, without the UTF-8 error's details.
pub enum StringFailure {
    VarInt(VarIntError),
    Cursor(CursorError),
    BadUtf8,
    UnreasonableLength,
}

/// The result of reading a length-prefixed UTF-8 string from `buf` at cursor `c`.
pub open spec fn string_outcome(buf: Seq<u8>, c: nat) -> Result<Seq<char>, StringFailure> {
    match var_int_result(buf, c) {
        Err(e) => Err(StringFailure::VarInt(e)),
        Ok(n) => if n < 0 {
            Err(StringFailure::UnreasonableLength)
        } else {
            match bytes_result(buf, var_int_cursor(buf, c), n as nat) {
                Err(e) => Err(StringFailure::Cursor(e)),
                Ok(bs) => if vstd::utf8::valid_utf8(bs) {
                    Ok(vstd::utf8::decode_utf8(bs))
                } else {
                    Err(StringFailure::BadUtf8)
                },
            }
        },
    }
}

/// The cursor after reading a length-prefixed string from `buf` at cursor `c`.
pub open spec fn string_cursor(buf: Seq<u8>, c: nat) -> nat {
    let c1 = var_int_cursor(buf, c);
    match var_int_result(buf, c) {
        Ok(n) => if n < 0 {
            c1
        } else {
            bytes_cursor(buf, c1, n as nat)
        },
        Err(_) => c1,
    }
}

/// `r` is the executable form of the outcome `o`.
pub open spec fn string_result_matches(r: Result<String, StringError>, o: Result<Seq<char>, StringFailure>) -> bool {
    match o {
        Ok(chars) => r matches Ok(s) && s@ == chars,
        Err(StringFailure::VarInt(e)) => r matches Err(StringError::VarInt(e2)) && e2 == e,
        Err(StringFailure::Cursor(e)) => r matches Err(StringError::Cursor(e2)) && e2 == e,
        Err(StringFailure::BadUtf8) => r matches Err(StringError::StringData(_)),
        Err(StringFailure::UnreasonableLength) => r matches Err(StringError::UnreasonableLength),
    }
}

/// Why a status reply could not be framed.
pub enum StatusFailure {
    PacketLength(PacketLengthError),
    PacketId(PacketIdError),
    String(StringFailure),
}

/// The JSON text carried by a status reply frame `buf`: a VarInt length, that many
/// bytes of packet, whose first byte (the packet id) must be 0 and whose rest starts
/// with a length-prefixed string.
pub open spec fn status_outcome(buf: Seq<u8>) -> Result<Seq<char>, StatusFailure> {
    match var_int_result(buf, 0) {
        Err(e) => Err(StatusFailure::PacketLength(PacketLengthError::VarInt(e))),
        Ok(n) => if n < 0 {
            Err(StatusFailure::PacketLength(PacketLengthError::UnreasonableLength))
        } else {
            match bytes_result(buf, var_int_cursor(buf, 0), n as nat) {
                Err(e) => Err(StatusFailure::PacketLength(PacketLengthError::Length(e))),
                Ok(body) => if body.len() == 0 {
                    Err(StatusFailure::PacketId(PacketIdError::Cursor(CursorError::OutOfBounds { cursor: 1 })))
                } else if body[0] != 0 {
                    Err(StatusFailure::PacketId(PacketIdError::Invalid))
                } else {
                    match string_outcome(body, 1) {
                        Ok(chars) => Ok(chars),
                        Err(f) => Err(StatusFailure::String(f)),
                    }
                },
            }
        },
    }
}

/// `r` is the executable form of the outcome `o`.
pub open spec fn status_result_matches(r: Result<String, PacketParseError>, o: Result<Seq<char>, StatusFailure>) -> bool {
    match o {
        Ok(chars) => r matches Ok(s) && s@ == chars,
        Err(StatusFailure::PacketLength(e)) => r matches Err(PacketParseError::PacketLength(e2)) && e2 == e,
        Err(StatusFailure::PacketId(e)) => r matches Err(PacketParseError::PacketId(e2)) && e2 == e,
        Err(StatusFailure::String(f)) => r matches Err(PacketParseError::String(e2)) && string_result_matches(Err(e2), Err(f)),
    }
}

/// The body of the handshake packet: id 0, protocol version 760, the server
/// address, the port and the next state 1 (status).
pub open spec fn handshake_body(packet_addr: Seq<char>, port: u16) -> Seq<u8> {
    let a = vstd::utf8::encode_utf8(packet_addr);
    seq![0u8] + varint_encode(760) + varint_encode(a.len()) + a + be_bytes(port as nat, 2) + varint_encode(1)
}

/// A frame: the body's length as a VarInt followed by the body.
pub open spec fn frame(body: Seq<u8>) -> Seq<u8> {
    varint_encode(body.len()) + body
}

/// The body of the ping packet: id 1 and the payload as a big-endian 64-bit number.
pub open spec fn ping_body(payload: i64) -> Seq<u8> {
    seq![1u8] + be_bytes((payload as u64) as nat, 8)
}

// ---------------------------------------------------------------------------
// Lemmas about the model
// ---------------------------------------------------------------------------

proof fn lemma_write_all_append(buf: Seq<u8>, c: nat, a: Seq<u8>, b: Seq<u8>)
    ensures
        write_all(buf, c, a + b) == write_all(write_all(buf, c, a), c + a.len(), b),
    decreases a.len(),
{
    if a.len() == 0 {
        assert(a + b =~= b);
    } else {
        assert((a + b).drop_first() =~= a.drop_first() + b);
        assert((a + b)[0] == a[0]);
        lemma_write_all_append(write_one(buf, c, a[0]), c + 1, a.drop_first(), b);
    }
}

/// Law: a byte written at the end of the buffer is appended, and the cursor then
/// stands at the new end again.
pub proof fn lemma_write_one_at_end(buf: Seq<u8>, b: u8)
    ensures
        write_one(buf, buf.len(), b) == buf.push(b),
        write_one(buf, buf.len(), b).len() == buf.len() + 1,
{
    assert(buf + Seq::new(1, |i: int| b) =~= buf.push(b));
}

/// Writing at the end of the buffer appends.
pub proof fn lemma_write_all_at_end(buf: Seq<u8>, bs: Seq<u8>)
    ensures
        write_all(buf, buf.len(), bs) == buf + bs,
    decreases bs.len(),
{
    if bs.len() == 0 {
        assert(buf + bs =~= buf);
    } else {
        let b1 = write_one(buf, buf.len(), bs[0]);
        assert(b1 =~= buf.push(bs[0]));
        lemma_write_all_at_end(b1, bs.drop_first());
        assert(buf.push(bs[0]) + bs.drop_first() =~= buf + bs);
    }
}

proof fn lemma_write_one_step(buf: Seq<u8>, c: nat, bs: Seq<u8>, i: int)
    requires
        0 <= i < bs.len(),
    ensures
        write_all(buf, c, bs.take(i + 1)) == write_one(write_all(buf, c, bs.take(i)), c + i as nat, bs[i]),
{
    lemma_write_all_append(buf, c, bs.take(i), seq![bs[i]]);
    assert(bs.take(i) + seq![bs[i]] =~= bs.take(i + 1));
    let mid = write_all(buf, c, bs.take(i));
    assert(seq![bs[i]].drop_first() =~= Seq::<u8>::empty());
    assert(bs.take(i).len() == i);
    assert(write_all(mid, c + i as nat, seq![bs[i]]) == write_one(mid, c + i as nat, bs[i])) by {
        reveal_with_fuel(write_all, 2);
    }
}

/// The length of a VarInt: one byte per started group of seven bits, at most
/// five for a 32-bit number.
pub proof fn lemma_varint_encode_len(v: nat)
    ensures
        1 <= varint_encode(v).len(),
        v < 0x8000_0000 ==> varint_encode(v).len() <= 5,
        v < 0x1000_0000 ==> varint_encode(v).len() <= 4,
        v < 0x20_0000 ==> varint_encode(v).len() <= 3,
        v < 0x4000 ==> varint_encode(v).len() <= 2,
        v < 128 ==> varint_encode(v).len() == 1,
    decreases v,
{
    if v >= 128 {
        lemma_varint_encode_len(v / 128);
    }
}

proof fn lemma_varint_sum_encode(v: nat)
    ensures
        varint_sum(varint_encode(v)) == v,
    decreases v,
{
    let s = varint_encode(v);
    assert(varint_sum(Seq::<u8>::empty()) == 0);
    if v < 128 {
        assert(s.drop_first() =~= Seq::<u8>::empty());
        assert(s[0] == v as u8);
        assert(s[0] % 128 == v);
    } else {
        lemma_varint_sum_encode(v / 128);
        assert(s.drop_first() =~= varint_encode(v / 128));
        assert(s[0] == (v % 128 + 128) as u8);
        assert(s[0] % 128 == v % 128);
        assert(v == v % 128 + 128 * (v / 128));
    }
}

proof fn lemma_varint_shape_encode(s: Seq<u8>, k: nat, v: nat)
    requires
        k + varint_encode(v).len() <= 5,
        k + varint_encode(v).len() <= s.len(),
        s.subrange(k as int, (k + varint_encode(v).len()) as int) == varint_encode(v),
    ensures
        varint_shape_from(s, k) == VarIntShape::Complete(k + varint_encode(v).len()),
    decreases v,
{
    let e = varint_encode(v);
    lemma_varint_encode_len(v);
    assert(s[k as int] == s.subrange(k as int, (k + e.len()) as int)[0]);
    if v >= 128 {
        let e2 = varint_encode(v / 128);
        lemma_varint_encode_len(v / 128);
        assert(e =~= seq![(v % 128 + 128) as u8] + e2);
        assert(e.drop_first() =~= e2);
        assert(s.subrange((k + 1) as int, (k + 1 + e2.len()) as int) =~= e.drop_first());
        lemma_varint_shape_encode(s, k + 1, v / 128);
    }
}

proof fn lemma_varint_shape_bounds(s: Seq<u8>, k: nat)
    requires
        k < 5,
    ensures
        varint_shape_from(s, k) matches VarIntShape::Complete(n) ==> k < n <= 5 && n <= s.len(),
    decreases 5 - k,
{
    if k < s.len() && s[k as int] >= 128 && k < 4 {
        lemma_varint_shape_bounds(s, k + 1);
    }
}

proof fn lemma_cursor_bounds(buf: Seq<u8>, c: nat)
    ensures
        var_int_cursor(buf, c) <= if c + 5 >= buf.len() + 1 { c + 5 } else { buf.len() + 1 },
        string_cursor(buf, c) <= if c + 6 >= buf.len() + 1 { c + 6 } else { buf.len() + 1 },
{
    lemma_varint_shape_bounds(unread(buf, c), 0);
}

proof fn lemma_varint_sum_push(s: Seq<u8>, b: u8)
    ensures
        varint_sum(s.push(b)) == varint_sum(s) + (b % 128) as nat * pow128(s.len()),
    decreases s.len(),
{
    assert(varint_sum(Seq::<u8>::empty()) == 0);
    assert(pow128(0) == 1);
    assert(s.push(b)[0] == if s.len() == 0 { b } else { s[0] });
    if s.len() == 0 {
        assert(s.push(b).drop_first() =~= Seq::<u8>::empty());
    } else {
        assert(s.push(b).drop_first() =~= s.drop_first().push(b));
        lemma_varint_sum_push(s.drop_first(), b);
        assert(pow128(s.len()) == 128 * pow128(s.drop_first().len()));
        assert(128 * ((b % 128) as nat * pow128(s.drop_first().len())) == (b % 128) as nat * (128
            * pow128(s.drop_first().len()))) by (nonlinear_arith);
    }
}

proof fn lemma_be_bytes_len(x: nat, n: nat)
    ensures
        be_bytes(x, n).len() == n,
    decreases n,
{
    if n > 0 {
        lemma_be_bytes_len(x / 256, (n - 1) as nat);
    }
}

/// Law: a non-negative VarInt written at any position is read back unchanged,
/// whatever precedes and follows it, and the cursor moves past exactly its bytes.
pub proof fn lemma_var_int_round_trip(pre: Seq<u8>, v: i32, rest: Seq<u8>)
    requires
        v >= 0,
    ensures
        var_int_result(pre + varint_encode(v as nat) + rest, pre.len()) == Ok::<i32, VarIntError>(v),
        var_int_cursor(pre + varint_encode(v as nat) + rest, pre.len()) == pre.len()
            + varint_encode(v as nat).len(),
{
    let e = varint_encode(v as nat);
    let buf = pre + e + rest;
    let s = unread(buf, pre.len());
    assert(s =~= e + rest);
    lemma_varint_encode_len(v as nat);
    assert(s.subrange(0, e.len() as int) =~= e);
    lemma_varint_shape_encode(s, 0, v as nat);
    assert(s.take(e.len() as int) =~= e);
    lemma_varint_sum_encode(v as nat);
}

/// Law: a string written as its UTF-8 length (a VarInt) followed by its bytes is
/// read back unchanged, whatever precedes and follows it.
pub proof fn lemma_string_round_trip(pre: Seq<u8>, s: Seq<char>, rest: Seq<u8>)
    requires
        vstd::utf8::encode_utf8(s).len() <= i32::MAX,
    ensures
        string_outcome(
            pre + (varint_encode(vstd::utf8::encode_utf8(s).len()) + vstd::utf8::encode_utf8(s)) + rest,
            pre.len(),
        ) == Ok::<Seq<char>, StringFailure>(s),
        string_cursor(
            pre + (varint_encode(vstd::utf8::encode_utf8(s).len()) + vstd::utf8::encode_utf8(s)) + rest,
            pre.len(),
        ) == pre.len() + varint_encode(vstd::utf8::encode_utf8(s).len()).len() + vstd::utf8::encode_utf8(s).len(),
{
    let a = vstd::utf8::encode_utf8(s);
    let e = varint_encode(a.len());
    let buf = pre + (e + a) + rest;
    assert(buf =~= pre + e + (a + rest));
    lemma_var_int_round_trip(pre, a.len() as i32, a + rest);
    let c1 = pre.len() + e.len();
    assert(buf.subrange(c1 as int, (c1 + a.len()) as int) =~= a);
    vstd::utf8::encode_utf8_valid_utf8(s);
    vstd::utf8::encode_utf8_decode_utf8(s);
}

/// Law: what `write_string` appends to a packet whose cursor is at its end is
/// what `read_string` returns when started where the write started.
pub proof fn lemma_packet_string_write_read(buf: Seq<u8>, s: Seq<char>)
    requires
        vstd::utf8::encode_utf8(s).len() <= i32::MAX,
    ensures
        string_outcome(
            write_all(buf, buf.len(), varint_encode(vstd::utf8::encode_utf8(s).len()) + vstd::utf8::encode_utf8(s)),
            buf.len(),
        ) == Ok::<Seq<char>, StringFailure>(s),
{
    let w = varint_encode(vstd::utf8::encode_utf8(s).len()) + vstd::utf8::encode_utf8(s);
    lemma_write_all_at_end(buf, w);
    lemma_string_round_trip(buf, s, Seq::<u8>::empty());
    assert(buf + w + Seq::<u8>::empty() =~= buf + w);
}

/// Law: what `write_var_int` appends to a packet whose cursor is at its end is
/// what `read_var_int` returns when started where the write started.
pub proof fn lemma_packet_var_int_write_read(buf: Seq<u8>, v: i32)
    requires
        v >= 0,
    ensures
        var_int_result(write_all(buf, buf.len(), varint_encode(v as nat)), buf.len()) == Ok::<i32, VarIntError>(v),
{
    lemma_write_all_at_end(buf, varint_encode(v as nat));
    lemma_var_int_round_trip(buf, v, Seq::<u8>::empty());
    assert(buf + varint_encode(v as nat) + Seq::<u8>::empty() =~= buf + varint_encode(v as nat));
}

/// Law: a status reply frame whose packet id is 0 and whose payload is a
/// length-prefixed string yields exactly that string.
pub proof fn lemma_status_round_trip(json: Seq<char>, rest: Seq<u8>)
    requires
        1 + varint_encode(vstd::utf8::encode_utf8(json).len()).len() + vstd::utf8::encode_utf8(json).len() <= i32::MAX,
    ensures
        status_outcome(
            frame(seq![0u8] + (varint_encode(vstd::utf8::encode_utf8(json).len()) + vstd::utf8::encode_utf8(json)))
                + rest,
        ) == Ok::<Seq<char>, StatusFailure>(json),
{
    let a = vstd::utf8::encode_utf8(json);
    let payload = varint_encode(a.len()) + a;
    let body = seq![0u8] + payload;
    let buf = frame(body) + rest;
    lemma_var_int_round_trip(Seq::<u8>::empty(), body.len() as i32, body + rest);
    assert(Seq::<u8>::empty() + varint_encode(body.len()) + (body + rest) =~= buf);
    let c1 = varint_encode(body.len()).len();
    assert(buf.subrange(c1 as int, (c1 + body.len()) as int) =~= body);
    lemma_string_round_trip(seq![0u8], json, Seq::<u8>::empty());
    assert(seq![0u8] + payload + Seq::<u8>::empty() =~= body);
}

// ---------------------------------------------------------------------------
// Errors
// ---------------------------------------------------------------------------

/// The error of `std::string::String::from_utf8`.
#[verifier::external_type_specification]
#[verifier::external_body]
pub struct ExFromUtf8Error(FromUtf8Error);

/// The error of `serde_json`'s deserializers.
#[verifier::external_type_specification]
#[verifier::external_body]
pub struct ExSerdeJsonError(serde_json::Error);

/// A read went past the end of the packet.
#[derive(Debug, PartialEq, Eq, Structural)]
pub enum CursorError {
    /// The cursor after the failed read.
    OutOfBounds { cursor: usize },
}

/// A VarInt could not be read.
#[derive(Debug, PartialEq, Eq, Structural)]
pub enum VarIntError {
    Cursor(CursorError),
    /// Five bytes in a row had the continuation bit set.
    Oversized,
}

/// A length-prefixed string could not be read.
#[derive(Debug)]
pub enum StringError {
    VarInt(VarIntError),
    Cursor(CursorError),
    StringData(FromUtf8Error),
    UnreasonableLength,
}

/// The packet id was missing or not the expected one.
#[derive(Debug, PartialEq, Eq, Structural)]
pub enum PacketIdError {
    Cursor(CursorError),
    Invalid,
}

/// The length prefix of a frame was unusable.
#[derive(Debug, PartialEq, Eq, Structural)]
pub enum PacketLengthError {
    UnreasonableLength,
    Length(CursorError),
    VarInt(VarIntError),
}

/// A status reply could not be understood.
#[derive(Debug)]
pub enum PacketParseError {
    String(StringError),
    PacketId(PacketIdError),
    PacketLength(PacketLengthError),
    Deserialize(serde_json::Error),
}

/// `String::from_utf8`: `Ok` exactly when the bytes are valid UTF-8, and then the
/// string holds the characters they encode. Nothing is said of the error value.
#[verifier::external_body]
fn string_from_utf8(bytes: Vec<u8>) -> (r: Result<String, FromUtf8Error>)
    ensures
        r is Ok <==> vstd::utf8::valid_utf8(bytes@),
        r matches Ok(s) ==> s@ == vstd::utf8::decode_utf8(bytes@),
{
    String::from_utf8(bytes)
}

/// The big-endian representation of `x` in `n` bytes.
fn be_bytes_exec(x: u64, n: usize) -> (r: Vec<u8>)
    ensures
        r@ == be_bytes(x as nat, n as nat),
    decreases n,
{
    if n == 0 {
        Vec::new()
    } else {
        let mut v = be_bytes_exec(x / 256, n - 1);
        v.push((x % 256) as u8);
        v
    }
}

// ---------------------------------------------------------------------------
// The status reply's content
// ---------------------------------------------------------------------------

/// A chat color.
#[derive(Debug, Clone, Copy, PartialEq, Eq, Structural)]
pub enum Color {
    Black,
    DarkBlue,
    DarkGreen,
    DarkAqua,
    DarkRed,
    DarkPurple,
    Gold,
    Gray,
    DarkGray,
    Blue,
    Green,
    Aqua,
    Red,
    LightPurple,
    Yellow,
    White,
}

/// A formatted chat component.
#[derive(Debug)]
pub struct Component {
    pub text: Option<String>,
    pub color: Option<Color>,
    pub bold: bool,
    pub italic: bool,
    pub underline: bool,
    pub strikethrough: bool,
    pub obfuscated: bool,
    pub extra: Option<Vec<Component>>,
}

/// A server description: a chat component, or plain text in older servers.
#[derive(Debug)]
pub enum TextComponent {
    New(Component),
    Old(String),
}

/// The server's version.
#[derive(Debug)]
pub struct Version {
    pub name: Option<String>,
    pub protocol: Option<usize>,
}

/// One player of the sample list.
#[derive(Debug)]
pub struct Player {
    pub name: Option<String>,
    pub id: Option<String>,
}

/// Player counts and a sample of the players online.
#[derive(Debug)]
pub struct Players {
    pub max: Option<usize>,
    pub online: Option<usize>,
    pub sample: Option<Vec<Player>>,
}

/// The content of a status reply.
#[derive(Debug)]
pub struct StatusResponse {
    pub version: Option<Version>,
    pub players: Option<Players>,
    pub description: Option<TextComponent>,
    pub favicon: Option<String>,
    pub secure: Option<bool>,
}

// ---------------------------------------------------------------------------
// Packets
// ---------------------------------------------------------------------------

/// A packet buffer with a read/write cursor.
pub struct Packet {
    buf: Vec<u8>,
    cursor: usize,
}

impl From<Vec<u8>> for Packet {
    /// A packet holding `bytes`, with the cursor at the start.
    fn from(bytes: Vec<u8>) -> (r: Self)
        ensures
            r.bytes() == bytes@,
            r.position() == 0,
    {
        Packet { buf: bytes, cursor: 0 }
    }
}

impl vstd::std_specs::convert::FromSpecImpl<Vec<u8>> for Packet {
    open spec fn obeys_from_spec() -> bool {
        true
    }

    closed spec fn from_spec(v: Vec<u8>) -> Self {
        Packet { buf: v, cursor: 0 }
    }
}

impl Packet {
    /// The bytes of the packet.
    pub closed spec fn bytes(&self) -> Seq<u8> {
        self.buf@
    }

    /// The position of the cursor.
    pub closed spec fn position(&self) -> nat {
        self.cursor as nat
    }

    /// A packet holds at most `usize::MAX` bytes.
    pub proof fn lemma_bytes_bounded(&self)
        ensures
            self.bytes().len() <= usize::MAX,
    {
        assert(self.buf@.len() == self.buf.len());
    }

    /// An empty packet.
    pub fn new() -> (r: Self)
        ensures
            r.bytes() == Seq::<u8>::empty(),
            r.position() == 0,
    {
        Packet { buf: Vec::new(), cursor: 0 }
    }

    /// Writes one byte at the cursor and moves the cursor past it; the buffer is
    /// cut (or padded with copies of `byte`) to end right after the cursor.
    pub fn write_byte(&mut self, byte: u8)
        requires
            old(self).position() < usize::MAX,
        ensures
            final(self).bytes() == write_one(old(self).bytes(), old(self).position(), byte),
            final(self).position() == old(self).position() + 1,
    {
        self.cursor = self.cursor + 1;
        self.buf.resize(self.cursor, byte);
        proof {
            let ob = old(self).bytes();
            let c = old(self).position();
            if c + 1 > ob.len() {
                assert(self.buf@ =~= ob + Seq::new((c + 1 - ob.len()) as nat, |i: int| byte));
            }
        }
    }

    fn write_slice(&mut self, bytes: &[u8])
        requires
            old(self).position() + bytes@.len() <= usize::MAX,
        ensures
            final(self).bytes() == write_all(old(self).bytes(), old(self).position(), bytes@),
            final(self).position() == old(self).position() + bytes@.len(),
    {
        let n = bytes.len();
        let mut i: usize = 0;
        assert(bytes@.take(0) =~= Seq::<u8>::empty());
        while i < n
            invariant
                n == bytes@.len(),
                i <= n,
                old(self).position() + n <= usize::MAX,
                self.position() == old(self).position() + i,
                self.bytes() == write_all(old(self).bytes(), old(self).position(), bytes@.take(i as int)),
            decreases n - i,
        {
            proof {
                lemma_write_one_step(old(self).bytes(), old(self).position(), bytes@, i as int);
            }
            self.write_byte(bytes[i]);
            i = i + 1;
        }
        assert(bytes@.take(n as int) =~= bytes@);
    }

    /// The VarInt encoding of a non-negative number.
    pub fn as_var_int(val: i32) -> (r: Vec<u8>)
        requires
            val >= 0,
        ensures
            r@ == varint_encode(val as nat),
            1 <= r@.len() <= 5,
    {
        proof {
            lemma_varint_encode_len(val as nat);
        }
        let mut rest = val;
        let mut out: Vec<u8> = Vec::new();
        assert(out@ + varint_encode(rest as nat) =~= varint_encode(val as nat));
        loop
            invariant
                rest >= 0,
                out@ + varint_encode(rest as nat) == varint_encode(val as nat),
                1 <= varint_encode(val as nat).len() <= 5,
            decreases rest,
        {
            if rest < 128 {
                proof {
                    assert(out@.push(rest as u8) =~= out@ + varint_encode(rest as nat));
                }
                out.push(rest as u8);
                return out;
            }
            proof {
                assert(out@.push((rest % 128 + 128) as u8) + varint_encode((rest / 128) as nat)
                    =~= out@ + varint_encode(rest as nat));
            }
            out.push((rest % 128 + 128) as u8);
            rest = rest / 128;
        }
    }

    /// Writes the VarInt encoding of a non-negative number at the cursor.
    pub fn write_var_int(&mut self, val: i32)
        requires
            val >= 0,
            old(self).position() + 5 <= usize::MAX,
        ensures
            final(self).bytes() == write_all(old(self).bytes(), old(self).position(), varint_encode(val as nat)),
            final(self).position() == old(self).position() + varint_encode(val as nat).len(),
    {
        proof {
            lemma_varint_encode_len(val as nat);
        }
        let bytes = Packet::as_var_int(val);
        self.write_slice(bytes.as_slice());
    }

    /// Writes a string as its byte length (a VarInt) followed by its UTF-8 bytes.
    pub fn write_string(&mut self, str: &str)
        requires
            vstd::utf8::encode_utf8(str@).len() <= i32::MAX,
            old(self).position() + 5 + vstd::utf8::encode_utf8(str@).len() <= usize::MAX,
        ensures
            final(self).bytes() == write_all(
                old(self).bytes(),
                old(self).position(),
                varint_encode(vstd::utf8::encode_utf8(str@).len()) + vstd::utf8::encode_utf8(str@),
            ),
            final(self).position() == old(self).position() + varint_encode(vstd::utf8::encode_utf8(str@).len()).len()
                + vstd::utf8::encode_utf8(str@).len(),
    {
        let len = str.len();
        self.write_var_int(len as i32);
        let bytes = str.as_bytes();
        proof {
            lemma_varint_encode_len(len as nat);
            lemma_write_all_append(
                old(self).bytes(),
                old(self).position(),
                varint_encode(len as nat),
                bytes@,
            );
        }
        self.write_slice(bytes);
    }

    /// Writes a 16-bit number, most significant byte first.
    pub fn write_short(&mut self, short: u16)
        requires
            old(self).position() + 2 <= usize::MAX,
        ensures
            final(self).bytes() == write_all(old(self).bytes(), old(self).position(), be_bytes(short as nat, 2)),
            final(self).position() == old(self).position() + 2,
    {
        let bytes = be_bytes_exec(short as u64, 2);
        proof {
            lemma_be_bytes_len(short as nat, 2);
        }
        self.write_slice(bytes.as_slice());
    }

    /// Writes a 64-bit number (two's complement), most significant byte first.
    pub fn write_long(&mut self, long: i64)
        requires
            old(self).position() + 8 <= usize::MAX,
        ensures
            final(self).bytes() == write_all(old(self).bytes(), old(self).position(), be_bytes((long as u64) as nat, 8)),
            final(self).position() == old(self).position() + 8,
    {
        let bytes = be_bytes_exec(long as u64, 8);
        proof {
            lemma_be_bytes_len((long as u64) as nat, 8);
        }
        self.write_slice(bytes.as_slice());
    }

    /// Reads the byte at the cursor; the cursor moves forward by one either way.
    pub fn read_byte(&mut self) -> (r: Result<&u8, CursorError>)
        requires
            old(self).position() < usize::MAX,
        ensures
            final(self).bytes() == old(self).bytes(),
            final(self).position() == old(self).position() + 1,
            old(self).position() < old(self).bytes().len() ==> (r matches Ok(b) && *b == old(self).bytes()[old(self).position() as int]),
            old(self).position() >= old(self).bytes().len() ==> r == Err::<&u8, CursorError>(
                CursorError::OutOfBounds { cursor: (old(self).position() + 1) as usize },
            ),
    {
        self.cursor = self.cursor + 1;
        if self.cursor - 1 < self.buf.len() {
            Ok(&self.buf[self.cursor - 1])
        } else {
            Err(CursorError::OutOfBounds { cursor: self.cursor })
        }
    }

    /// Reads `bytes` raw bytes at the cursor. On failure the cursor stands one past
    /// the point where the bytes ran out.
    pub fn read_bytes(&mut self, bytes: usize) -> (r: Result<Vec<u8>, CursorError>)
        requires
            bytes_cursor(old(self).bytes(), old(self).position(), bytes as nat) <= usize::MAX,
        ensures
            final(self).bytes() == old(self).bytes(),
            final(self).position() == bytes_cursor(old(self).bytes(), old(self).position(), bytes as nat),
            match r {
                Ok(v) => bytes_result(old(self).bytes(), old(self).position(), bytes as nat) == Ok::<Seq<u8>, CursorError>(v@),
                Err(e) => bytes_result(old(self).bytes(), old(self).position(), bytes as nat) == Err::<Seq<u8>, CursorError>(e),
            },
    {
        let ghost c = self.position();
        let ghost buf = self.bytes();
        let mut out: Vec<u8> = Vec::new();
        let mut i: usize = 0;
        while i < bytes
            invariant
                self.bytes() == buf,
                buf == old(self).bytes(),
                c == old(self).position(),
                bytes_cursor(buf, c, bytes as nat) <= usize::MAX,
                i <= bytes,
                self.position() == c + i,
                i > 0 ==> c + i <= buf.len(),
                i == 0 ==> out@ == Seq::<u8>::empty(),
                i > 0 ==> out@ == buf.subrange(c as int, (c + i) as int),
            decreases bytes - i,
        {
            let res = self.read_byte();
            match res {
                Ok(b) => {
                    out.push(*b);
                    i = i + 1;
                    proof {
                        assert(out@ =~= buf.subrange(c as int, (c + i) as int));
                    }
                },
                Err(e) => {
                    return Err(e);
                },
            }
        }
        Ok(out)
    }

    /// Reads a VarInt at the cursor (at most five bytes).
    pub fn read_var_int(&mut self) -> (r: Result<i32, VarIntError>)
        requires
            old(self).position() + 5 <= usize::MAX,
            old(self).bytes().len() < usize::MAX,
        ensures
            final(self).bytes() == old(self).bytes(),
            final(self).position() == var_int_cursor(old(self).bytes(), old(self).position()),
            r == var_int_result(old(self).bytes(), old(self).position()),
    {
        let ghost c = self.position();
        let ghost buf = self.bytes();
        let ghost s = unread(buf, c);
        proof {
            lemma_cursor_bounds(buf, c);
        }
        let mut value: u64 = 0;
        let mut mult: u64 = 1;
        let mut k: usize = 0;
        assert(s.take(0) =~= Seq::<u8>::empty());
        loop
            invariant
                self.bytes() == buf,
                buf == old(self).bytes(),
                c == old(self).position(),
                s == unread(buf, c),
                var_int_cursor(buf, c) <= usize::MAX,
                k < 5,
                k <= s.len(),
                self.position() == c + k,
                varint_shape_from(s, k as nat) == varint_shape_from(s, 0),
                value == varint_sum(s.take(k as int)),
                mult == pow128(k as nat),
                value < pow128(k as nat),
            decreases 5 - k,
        {
            proof {
                assert(pow128(1) == 128 && pow128(2) == 16384 && pow128(3) == 2097152 && pow128(4) == 268435456) by {
                    reveal_with_fuel(pow128, 5);
                }
                if c <= buf.len() {
                    assert(c + k < buf.len() <==> k < s.len());
                } else {
                    assert(s.len() == 0);
                }
                lemma_varint_shape_bounds(s, k as nat);
            }
            let res = self.read_byte();
            let b: u8 = match res {
                Ok(b) => *b,
                Err(e) => {
                    proof {
                        assert(k >= s.len());
                        assert(k == s.len() ==> c + k == overrun_cursor(buf, c) - 1);
                    }
                    return Err(VarIntError::Cursor(e));
                },
            };
            proof {
                assert(k < s.len());
                assert(b == s[k as int]);
                lemma_varint_sum_push(s.take(k as int), b);
                assert(s.take(k as int).push(b) =~= s.take(k + 1));
                assert((b % 128) as nat * pow128(k as nat) <= 127 * pow128(k as nat)) by (nonlinear_arith)
                    requires b % 128 <= 127;
            }
            value = value + (b % 128) as u64 * mult;
            if b < 128 {
                proof {
                    assert(value < 0x8_0000_0000);
                }
                let m: u64 = value % 0x1_0000_0000;
                let out: i32 = if m < 0x8000_0000 {
                    m as i32
                } else {
                    (m as i64 - 0x1_0000_0000) as i32
                };
                return Ok(out);
            }
            if k == 4 {
                return Err(VarIntError::Oversized);
            }
            mult = mult * 128;
            k = k + 1;
        }
    }

    /// Reads a string written as its byte length (a VarInt) followed by UTF-8 bytes.
    pub fn read_string(&mut self) -> (r: Result<String, StringError>)
        requires
            old(self).position() + 6 <= usize::MAX,
            old(self).bytes().len() < usize::MAX,
        ensures
            final(self).bytes() == old(self).bytes(),
            final(self).position() == string_cursor(old(self).bytes(), old(self).position()),
            string_result_matches(r, string_outcome(old(self).bytes(), old(self).position())),
    {
        proof {
            lemma_cursor_bounds(self.bytes(), self.position());
        }
        let length = match self.read_var_int() {
            Ok(n) => n,
            Err(e) => return Err(StringError::VarInt(e)),
        };
        if length < 0 {
            return Err(StringError::UnreasonableLength);
        }
        let str_bytes = match self.read_bytes(length as usize) {
            Ok(v) => v,
            Err(e) => return Err(StringError::Cursor(e)),
        };
        match string_from_utf8(str_bytes) {
            Ok(str) => Ok(str),
            Err(e) => Err(StringError::StringData(e)),
        }
    }

    /// The whole packet prefixed with its length as a VarInt.
    pub fn get_bytes(&self) -> (r: Vec<u8>)
        requires
            self.bytes().len() <= i32::MAX,
        ensures
            r@ == varint_encode(self.bytes().len()) + self.bytes(),
    {
        let mut out = Packet::as_var_int(self.buf.len() as i32);
        let mut body = self.buf.clone();
        out.append(&mut body);
        out
    }
}

/// The handshake that opens a status exchange with the server at `packet_addr:port`.
pub fn handshake_packet(packet_addr: &str, port: u16) -> (r: Vec<u8>)
    requires
        handshake_body(packet_addr@, port).len() <= i32::MAX,
    ensures
        r@ == frame(handshake_body(packet_addr@, port)),
{
    let ghost a = vstd::utf8::encode_utf8(packet_addr@);
    proof {
        lemma_varint_encode_len(760);
        lemma_varint_encode_len(1);
        lemma_varint_encode_len(a.len());
        lemma_be_bytes_len(port as nat, 2);
    }
    let mut packet = Packet::new();
    packet.write_byte(0);
    proof { lemma_write_all_at_end(Seq::<u8>::empty(), Seq::<u8>::empty()); }
    assert(packet.bytes() =~= seq![0u8]);
    proof { lemma_write_all_at_end(packet.bytes(), varint_encode(760)); }
    packet.write_var_int(760);
    proof { lemma_write_all_at_end(packet.bytes(), varint_encode(a.len()) + a); }
    packet.write_string(packet_addr);
    proof { lemma_write_all_at_end(packet.bytes(), be_bytes(port as nat, 2)); }
    packet.write_short(port);
    proof { lemma_write_all_at_end(packet.bytes(), varint_encode(1)); }
    packet.write_var_int(1);
    assert(packet.bytes() =~= handshake_body(packet_addr@, port));
    packet.get_bytes()
}

/// The status request: a frame holding only the packet id 0.
pub fn status_request_packet() -> (r: Vec<u8>)
    ensures
        r@ == frame(seq![0u8]),
{
    let mut packet = Packet::new();
    packet.write_byte(0);
    assert(packet.bytes() =~= seq![0u8]);
    packet.get_bytes()
}

/// The ping request carrying `payload` (clients send the current time in milliseconds).
pub fn ping_packet(payload: i64) -> (r: Vec<u8>)
    ensures
        r@ == frame(ping_body(payload)),
{
    proof { lemma_be_bytes_len((payload as u64) as nat, 8); }
    let mut packet = Packet::new();
    packet.write_byte(1);
    assert(packet.bytes() =~= seq![1u8]);
    proof { lemma_write_all_at_end(packet.bytes(), be_bytes((payload as u64) as nat, 8)); }
    packet.write_long(payload);
    assert(packet.bytes() =~= ping_body(payload));
    packet.get_bytes()
}

/// Unframes a status reply and returns the JSON text it carries.
pub fn parse_status_response(buf: Vec<u8>) -> (r: Result<String, PacketParseError>)
    requires
        buf@.len() < usize::MAX,
    ensures
        status_result_matches(r, status_outcome(buf@)),
{
    let ghost b = buf@;
    let mut frame = Packet::from(buf);
    proof {
        lemma_varint_shape_bounds(unread(b, 0), 0);
    }
    let length = match frame.read_var_int() {
        Ok(n) => n,
        Err(e) => return Err(PacketParseError::PacketLength(PacketLengthError::VarInt(e))),
    };
    if length < 0 {
        return Err(PacketParseError::PacketLength(PacketLengthError::UnreasonableLength));
    }
    let body = match frame.read_bytes(length as usize) {
        Ok(v) => v,
        Err(e) => return Err(PacketParseError::PacketLength(PacketLengthError::Length(e))),
    };
    let ghost bd = body@;
    let mut packet = Packet::from(body);
    let id = match packet.read_byte() {
        Ok(id) => *id,
        Err(e) => return Err(PacketParseError::PacketId(PacketIdError::Cursor(e))),
    };
    if id != 0 {
        return Err(PacketParseError::PacketId(PacketIdError::Invalid));
    }
    proof {
        lemma_varint_shape_bounds(unread(bd, 1), 0);
        assert(bd.len() < usize::MAX);
    }
    match packet.read_string() {
        Ok(json) => Ok(json),
        Err(e) => Err(PacketParseError::String(e)),
    }
}


} // verus!
