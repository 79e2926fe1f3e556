//! LiteNetLib 1.x wire-format primitives: the property-byte header, the
//! ConnectRequest/ConnectAccept handshake, the Unreliable data channel, and
//! Ping/Pong/Disconnect. No reliable channels, no fragmentation, no merging.
use vstd::prelude::*;
use vstd::utf8::{decode_utf8, encode_utf8, valid_utf8};

pub mod property;

verus! {

/// LiteNetLib protocol id (`NetConstants.ProtocolId`).
pub const PROTOCOL_ID: i32 = 13;

/// `NetConstants.MaxConnectionNumber`: connection numbers are 2 bits (0..=3).
pub const MAX_CONNECTION_NUMBER: u8 = 4;

/// Fixed MTU (`NetConstants.PossibleMtu[1]`).
pub const MTU: usize = 1024;

/// Base header size: the single property byte.
pub const HEADER_SIZE: usize = 1;

/// ConnectRequest header: property + protocol id (4) + connect time (8) +
/// peer id (4) + address-size byte (1).
pub const CONNECT_REQUEST_HEADER_SIZE: usize = 18;

/// ConnectAccept size: property + connect time (8) + connection number (1) +
/// reused flag (1) + peer id (4).
pub const CONNECT_ACCEPT_SIZE: usize = 15;

/// Ping packet size: property + sequence (2).
pub const PING_SIZE: usize = 3;

/// Pong packet size: property + sequence (2) + remote time ticks (8).
pub const PONG_SIZE: usize = 11;

/// Disconnect packet size: property + connect time (8).
pub const DISCONNECT_SIZE: usize = 9;

/// Little-endian bytes of a `u16`.
pub open spec fn le_u16(v: u16) -> Seq<u8> {
    seq![v as u8, (v >> 8u16) as u8]
}

/// Little-endian bytes of a `u32`.
pub open spec fn le_u32(v: u32) -> Seq<u8> {
    seq![v as u8, (v >> 8u32) as u8, (v >> 16u32) as u8, (v >> 24u32) as u8]
}

/// Little-endian bytes of a `u64`.
pub open spec fn le_u64(v: u64) -> Seq<u8> {
    seq![
        v as u8,
        (v >> 8u64) as u8,
        (v >> 16u64) as u8,
        (v >> 24u64) as u8,
        (v >> 32u64) as u8,
        (v >> 40u64) as u8,
        (v >> 48u64) as u8,
        (v >> 56u64) as u8,
    ]
}

/// Little-endian (two's complement) bytes of an `i32`.
pub open spec fn le_i32(v: i32) -> Seq<u8> {
    le_u32(v as u32)
}

/// Little-endian (two's complement) bytes of an `i64`.
pub open spec fn le_i64(v: i64) -> Seq<u8> {
    le_u64(v as u64)
}

/// The `u16` whose little-endian bytes start at `b[at]`.
pub open spec fn read_le_u16(b: Seq<u8>, at: int) -> u16 {
    ((b[at] as u16) | ((b[at + 1] as u16) << 8u16)) as u16
}

/// The `u32` whose little-endian bytes start at `b[at]`.
pub open spec fn read_le_u32(b: Seq<u8>, at: int) -> u32 {
    ((b[at] as u32) | ((b[at + 1] as u32) << 8u32) | ((b[at + 2] as u32) << 16u32) | ((b[at
        + 3] as u32) << 24u32)) as u32
}

/// The `u64` whose little-endian bytes start at `b[at]`.
pub open spec fn read_le_u64(b: Seq<u8>, at: int) -> u64 {
    ((b[at] as u64) | ((b[at + 1] as u64) << 8u64) | ((b[at + 2] as u64) << 16u64) | ((b[at
        + 3] as u64) << 24u64) | ((b[at + 4] as u64) << 32u64) | ((b[at + 5] as u64) << 40u64) | ((
    b[at + 6] as u64) << 48u64) | ((b[at + 7] as u64) << 56u64)) as u64
}

/// The `i32` whose little-endian bytes start at `b[at]`.
pub open spec fn read_le_i32(b: Seq<u8>, at: int) -> i32 {
    read_le_u32(b, at) as i32
}

/// The `i64` whose little-endian bytes start at `b[at]`.
pub open spec fn read_le_i64(b: Seq<u8>, at: int) -> i64 {
    read_le_u64(b, at) as i64
}

/// Reading back the bytes of a `u16` gives the `u16`.
pub proof fn lemma_le_u16_roundtrip(v: u16)
    ensures
        read_le_u16(le_u16(v), 0) == v,
{
    let b0 = v as u8;
    let b1 = (v >> 8u16) as u8;
    assert(((b0 as u16) | ((b1 as u16) << 8u16)) == v) by (bit_vector)
        requires
            b0 == v as u8,
            b1 == (v >> 8u16) as u8,
    ;
}

/// Reading back the bytes of a `u64` gives the `u64`.
pub proof fn lemma_le_u64_roundtrip(v: u64)
    ensures
        read_le_u64(le_u64(v), 0) == v,
{
    let b = le_u64(v);
    let (b0, b1, b2, b3, b4, b5, b6, b7) = (b[0], b[1], b[2], b[3], b[4], b[5], b[6], b[7]);
    assert(((b0 as u64) | ((b1 as u64) << 8u64) | ((b2 as u64) << 16u64) | ((b3 as u64) << 24u64)
        | ((b4 as u64) << 32u64) | ((b5 as u64) << 40u64) | ((b6 as u64) << 48u64) | ((b7 as u64)
        << 56u64)) == v) by (bit_vector)
        requires
            b0 == v as u8,
            b1 == (v >> 8u64) as u8,
            b2 == (v >> 16u64) as u8,
            b3 == (v >> 24u64) as u8,
            b4 == (v >> 32u64) as u8,
            b5 == (v >> 40u64) as u8,
            b6 == (v >> 48u64) as u8,
            b7 == (v >> 56u64) as u8,
    ;
}

/// Reading back the bytes of a `u32` gives the `u32`.
pub proof fn lemma_le_u32_roundtrip(v: u32)
    ensures
        read_le_u32(le_u32(v), 0) == v,
{
    let b = le_u32(v);
    let (b0, b1, b2, b3) = (b[0], b[1], b[2], b[3]);
    assert(((b0 as u32) | ((b1 as u32) << 8u32) | ((b2 as u32) << 16u32) | ((b3 as u32) << 24u32))
        == v) by (bit_vector)
        requires
            b0 == v as u8,
            b1 == (v >> 8u32) as u8,
            b2 == (v >> 16u32) as u8,
            b3 == (v >> 24u32) as u8,
    ;
}

const PROPERTY_MASK: u8 = 0x1F;

const CONNECTION_NUMBER_MASK: u8 = 0x60;

const CONNECTION_NUMBER_SHIFT: u8 = 5;

const FRAGMENTED_FLAG: u8 = 0x80;

/// The decoded first byte of every LiteNetLib packet.
#[derive(Debug, Clone, Copy, PartialEq, Eq)]
pub struct Header {
    pub property: u8,
    pub connection_number: u8,
    pub fragmented: bool,
}

/// The header that a first byte decodes to.
pub open spec fn header_of_byte(b: u8) -> Header {
    Header {
        property: b & 0x1Fu8,
        connection_number: (b & 0x60u8) >> 5u8,
        fragmented: (b & 0x80u8) != 0,
    }
}

/// The byte that a header encodes to: the property's low 5 bits, the
/// connection number's low 2 bits at bits 5..7, and the fragmented flag at bit 7.
pub open spec fn byte_of_header(h: Header) -> u8 {
    (h.property & 0x1Fu8) | (((h.connection_number << 5u8) as u8) & 0x60u8) | (if h.fragmented {
        0x80u8
    } else {
        0u8
    })
}

/// A header is canonical when every field fits its bits.
pub open spec fn header_is_canonical(h: Header) -> bool {
    h.property < 32 && h.connection_number < 4
}

impl Header {
    /// Decode a header from the packet's first byte.
    pub fn from_byte(b: u8) -> (r: Header)
        ensures
            r == header_of_byte(b),
    {
        Header {
            property: b & PROPERTY_MASK,
            connection_number: (b & CONNECTION_NUMBER_MASK) >> CONNECTION_NUMBER_SHIFT,
            fragmented: (b & FRAGMENTED_FLAG) != 0,
        }
    }

    /// Encode this header back into a single byte.
    pub fn to_byte(self) -> (r: u8)
        ensures
            r == byte_of_header(self),
    {
        let cn: u8 = ((self.connection_number as u16) << 5u16) as u8;
        proof {
            let c = self.connection_number;
            assert((((c as u16) << 5u16) as u8) == ((c << 5u8) as u8)) by (bit_vector);
        }
        (self.property & PROPERTY_MASK) | (cn & CONNECTION_NUMBER_MASK) | if self.fragmented {
            FRAGMENTED_FLAG
        } else {
            0
        }
    }

    /// A plain (non-fragmented, connection-number 0) header for `property`.
    pub fn plain(property: u8) -> (r: Header)
        ensures
            r == (Header { property, connection_number: 0, fragmented: false }),
    {
        Header { property, connection_number: 0, fragmented: false }
    }
}

/// Every byte survives a decode and re-encode: the header codec is total.
pub proof fn lemma_header_byte_roundtrip(b: u8)
    ensures
        byte_of_header(header_of_byte(b)) == b,
        header_is_canonical(header_of_byte(b)),
{
    assert((b & 0x1Fu8) & 0x1Fu8 | (((((b & 0x60u8) >> 5u8) << 5u8) as u8) & 0x60u8) | (if (b
        & 0x80u8) != 0 {
        0x80u8
    } else {
        0u8
    }) == b) by (bit_vector);
    assert((b & 0x1Fu8) < 32 && ((b & 0x60u8) >> 5u8) < 4) by (bit_vector);
}

/// Every canonical header survives an encode and decode.
pub proof fn lemma_header_roundtrip(h: Header)
    requires
        header_is_canonical(h),
    ensures
        header_of_byte(byte_of_header(h)) == h,
{
    let p = h.property;
    let c = h.connection_number;
    let f: u8 = if h.fragmented {
        0x80u8
    } else {
        0u8
    };
    let b = (p & 0x1Fu8) | (((c << 5u8) as u8) & 0x60u8) | f;
    assert(b & 0x1Fu8 == p && (b & 0x60u8) >> 5u8 == c && ((b & 0x80u8) != 0) == (f == 0x80u8))
        by (bit_vector)
        requires
            p < 32,
            c < 4,
            f == 0x80u8 || f == 0u8,
            b == (p & 0x1Fu8) | (((c << 5u8) as u8) & 0x60u8) | f,
    ;
}

/// A plain header encodes to the property's low 5 bits.
pub proof fn lemma_plain_header_byte(p: u8)
    ensures
        byte_of_header(Header { property: p, connection_number: 0, fragmented: false }) == p
            & 0x1Fu8,
        p < 32 ==> p & 0x1Fu8 == p,
{
    assert((p & 0x1Fu8) | ((((0u8) << 5u8) as u8) & 0x60u8) | 0u8 == p & 0x1Fu8) by (bit_vector);
    assert(p < 32 ==> p & 0x1Fu8 == p) by (bit_vector);
}

fn plain_byte(property: u8) -> (r: u8)
    ensures
        r == property & 0x1Fu8,
        property < 32 ==> r == property,
{
    proof {
        lemma_plain_header_byte(property);
    }
    Header::plain(property).to_byte()
}

fn get_le_u16(b: &[u8], at: usize) -> (r: u16)
    requires
        at + 2 <= b@.len(),
    ensures
        r == read_le_u16(b@, at as int),
{
    (b[at] as u16) | ((b[at + 1] as u16) << 8u16)
}

fn get_le_u32(b: &[u8], at: usize) -> (r: u32)
    requires
        at + 4 <= b@.len(),
    ensures
        r == read_le_u32(b@, at as int),
{
    (b[at] as u32) | ((b[at + 1] as u32) << 8u32) | ((b[at + 2] as u32) << 16u32) | ((b[at
        + 3] as u32) << 24u32)
}

fn get_le_u64(b: &[u8], at: usize) -> (r: u64)
    requires
        at + 8 <= b@.len(),
    ensures
        r == read_le_u64(b@, at as int),
{
    (b[at] as u64) | ((b[at + 1] as u64) << 8u64) | ((b[at + 2] as u64) << 16u64) | ((b[at
        + 3] as u64) << 24u64) | ((b[at + 4] as u64) << 32u64) | ((b[at + 5] as u64) << 40u64) | ((
    b[at + 6] as u64) << 48u64) | ((b[at + 7] as u64) << 56u64)
}

/// Append `data` to `out`.
fn push_all(out: &mut Vec<u8>, data: &[u8])
    ensures
        final(out)@ == old(out)@ + data@,
{
    let mut i: usize = 0;
    while i < data.len()
        invariant
            i <= data@.len(),
            out@ == old(out)@ + data@.subrange(0, i as int),
        decreases data@.len() - i,
    {
        out.push(data[i]);
        i += 1;
        proof {
            assert(data@.subrange(0, i as int) =~= data@.subrange(0, i - 1).push(data@[i - 1]));
        }
    }
    proof {
        assert(data@.subrange(0, data@.len() as int) =~= data@);
    }
}

fn push_le_u64(out: &mut Vec<u8>, v: u64)
    ensures
        final(out)@ == old(out)@ + le_u64(v),
{
    out.push(v as u8);
    out.push((v >> 8u64) as u8);
    out.push((v >> 16u64) as u8);
    out.push((v >> 24u64) as u8);
    out.push((v >> 32u64) as u8);
    out.push((v >> 40u64) as u8);
    out.push((v >> 48u64) as u8);
    out.push((v >> 56u64) as u8);
    proof {
        assert(final(out)@ =~= old(out)@ + le_u64(v));
    }
}

fn push_le_u32(out: &mut Vec<u8>, v: u32)
    ensures
        final(out)@ == old(out)@ + le_u32(v),
{
    out.push(v as u8);
    out.push((v >> 8u32) as u8);
    out.push((v >> 16u32) as u8);
    out.push((v >> 24u32) as u8);
    proof {
        assert(final(out)@ =~= old(out)@ + le_u32(v));
    }
}

/// Build a Ping packet with the given sequence number.
pub fn build_ping(sequence: u16) -> (r: [u8; PING_SIZE])
    ensures
        r@ == seq![property::PING] + le_u16(sequence),
{
    let mut r = [0u8, 0, 0];
    r[0] = plain_byte(property::PING);
    r[1] = sequence as u8;
    r[2] = (sequence >> 8u16) as u8;
    proof {
        assert(r@ =~= seq![property::PING] + le_u16(sequence));
    }
    r
}

/// .NET ticks (100 ns since 0001-01-01) at the Unix epoch.
pub const UNIX_EPOCH_TICKS: i64 = 621_355_968_000_000_000;

/// Local time in .NET `DateTime.UtcNow.Ticks` as Pong replies carry it,
/// from the nanoseconds elapsed since the Unix epoch (`None` when the clock
/// reads before the epoch, which counts as the epoch itself).
pub fn dotnet_ticks_since_unix(since_epoch_ns: Option<u128>) -> (r: i64)
    requires
        since_epoch_ns matches Some(n) ==> n / 100 <= i64::MAX - UNIX_EPOCH_TICKS,
    ensures
        r == match since_epoch_ns {
            Some(n) => UNIX_EPOCH_TICKS + n / 100,
            None => UNIX_EPOCH_TICKS as int,
        },
{
    match since_epoch_ns {
        Some(n) => UNIX_EPOCH_TICKS + (n / 100) as i64,
        None => UNIX_EPOCH_TICKS,
    }
}

/// Build a Pong packet echoing `sequence`, carrying local time in .NET ticks.
pub fn build_pong(sequence: u16, time_ticks: i64) -> (r: [u8; PONG_SIZE])
    ensures
        r@ == seq![property::PONG] + le_u16(sequence) + le_i64(time_ticks),
{
    let t = time_ticks as u64;
    let mut r = [0u8, 0, 0, 0, 0, 0, 0, 0, 0, 0, 0];
    r[0] = plain_byte(property::PONG);
    r[1] = sequence as u8;
    r[2] = (sequence >> 8u16) as u8;
    r[3] = t as u8;
    r[4] = (t >> 8u64) as u8;
    r[5] = (t >> 16u64) as u8;
    r[6] = (t >> 24u64) as u8;
    r[7] = (t >> 32u64) as u8;
    r[8] = (t >> 40u64) as u8;
    r[9] = (t >> 48u64) as u8;
    r[10] = (t >> 56u64) as u8;
    proof {
        assert(r@ =~= seq![property::PONG] + le_u16(sequence) + le_i64(time_ticks));
    }
    r
}

/// Build a Disconnect packet carrying `connect_time`.
pub fn build_disconnect(connect_time: i64) -> (r: [u8; DISCONNECT_SIZE])
    ensures
        r@ == seq![property::DISCONNECT] + le_i64(connect_time),
{
    let t = connect_time as u64;
    let mut r = [0u8, 0, 0, 0, 0, 0, 0, 0, 0];
    r[0] = plain_byte(property::DISCONNECT);
    r[1] = t as u8;
    r[2] = (t >> 8u64) as u8;
    r[3] = (t >> 16u64) as u8;
    r[4] = (t >> 24u64) as u8;
    r[5] = (t >> 32u64) as u8;
    r[6] = (t >> 40u64) as u8;
    r[7] = (t >> 48u64) as u8;
    r[8] = (t >> 56u64) as u8;
    proof {
        assert(r@ =~= seq![property::DISCONNECT] + le_i64(connect_time));
    }
    r
}

/// Build a ConnectAccept packet echoing the client's `connect_time`.
pub fn build_connect_accept(
    connect_time: i64,
    connection_number: u8,
    local_peer_id: i32,
    reused: bool,
) -> (r: [u8; CONNECT_ACCEPT_SIZE])
    ensures
        r@ == seq![property::CONNECT_ACCEPT] + le_i64(connect_time) + seq![
            connection_number,
            if reused {
                1u8
            } else {
                0u8
            },
        ] + le_i32(local_peer_id),
{
    let t = connect_time as u64;
    let id = local_peer_id as u32;
    let mut r = [0u8, 0, 0, 0, 0, 0, 0, 0, 0, 0, 0, 0, 0, 0, 0];
    r[0] = plain_byte(property::CONNECT_ACCEPT);
    r[1] = t as u8;
    r[2] = (t >> 8u64) as u8;
    r[3] = (t >> 16u64) as u8;
    r[4] = (t >> 24u64) as u8;
    r[5] = (t >> 32u64) as u8;
    r[6] = (t >> 40u64) as u8;
    r[7] = (t >> 48u64) as u8;
    r[8] = (t >> 56u64) as u8;
    r[9] = connection_number;
    r[10] = if reused {
        1
    } else {
        0
    };
    r[11] = id as u8;
    r[12] = (id >> 8u32) as u8;
    r[13] = (id >> 16u32) as u8;
    r[14] = (id >> 24u32) as u8;
    proof {
        assert(r@ =~= seq![property::CONNECT_ACCEPT] + le_i64(connect_time) + seq![
            connection_number,
            if reused {
                1u8
            } else {
                0u8
            },
        ] + le_i32(local_peer_id));
    }
    r
}

/// A single-byte control packet (`ShutdownOk`, `InvalidProtocol`, ...).
pub fn build_control(property: u8) -> (r: [u8; HEADER_SIZE])
    ensures
        r@ == seq![property & 0x1Fu8],
{
    let mut r = [0u8];
    r[0] = plain_byte(property);
    proof {
        assert(r@ =~= seq![property & 0x1Fu8]);
    }
    r
}

/// Wrap `data` in an Unreliable packet (property byte + payload).
pub fn build_unreliable(data: &[u8]) -> (r: Vec<u8>)
    ensures
        r@ == seq![property::UNRELIABLE] + data@,
{
    let mut out: Vec<u8> = Vec::new();
    out.push(plain_byte(property::UNRELIABLE));
    push_all(&mut out, data);
    out
}

/// The first byte of a non-fragmented packet of `property` sent on the
/// session numbered `connection_number`.
pub open spec fn session_byte(property: u8, connection_number: u8) -> u8 {
    byte_of_header(Header { property, connection_number, fragmented: false })
}

fn session_header_byte(property: u8, connection_number: u8) -> (r: u8)
    ensures
        r == session_byte(property, connection_number),
{
    Header { property, connection_number, fragmented: false }.to_byte()
}

/// Wrap `data` in an Unreliable packet stamped with the session's
/// `connection_number`.
pub fn build_unreliable_for(connection_number: u8, data: &[u8]) -> (r: Vec<u8>)
    ensures
        r@ == seq![session_byte(property::UNRELIABLE, connection_number)] + data@,
{
    let mut out: Vec<u8> = Vec::new();
    out.push(session_header_byte(property::UNRELIABLE, connection_number));
    push_all(&mut out, data);
    out
}

/// Build a Ping packet with the given sequence number, stamped with the
/// session's `connection_number`.
pub fn build_ping_for(connection_number: u8, sequence: u16) -> (r: [u8; PING_SIZE])
    ensures
        r@ == seq![session_byte(property::PING, connection_number)] + le_u16(sequence),
{
    let mut r = [0u8, 0, 0];
    r[0] = session_header_byte(property::PING, connection_number);
    r[1] = sequence as u8;
    r[2] = (sequence >> 8u16) as u8;
    proof {
        assert(r@ =~= seq![session_byte(property::PING, connection_number)] + le_u16(sequence));
    }
    r
}

/// Build a Pong packet echoing `sequence` and carrying local time in .NET
/// ticks, stamped with the session's `connection_number`.
pub fn build_pong_for(connection_number: u8, sequence: u16, time_ticks: i64) -> (r: [u8; PONG_SIZE])
    ensures
        r@ == seq![session_byte(property::PONG, connection_number)] + le_u16(sequence) + le_i64(
            time_ticks,
        ),
{
    let t = time_ticks as u64;
    let mut r = [0u8, 0, 0, 0, 0, 0, 0, 0, 0, 0, 0];
    r[0] = session_header_byte(property::PONG, connection_number);
    r[1] = sequence as u8;
    r[2] = (sequence >> 8u16) as u8;
    r[3] = t as u8;
    r[4] = (t >> 8u64) as u8;
    r[5] = (t >> 16u64) as u8;
    r[6] = (t >> 24u64) as u8;
    r[7] = (t >> 32u64) as u8;
    r[8] = (t >> 40u64) as u8;
    r[9] = (t >> 48u64) as u8;
    r[10] = (t >> 56u64) as u8;
    proof {
        assert(r@ =~= seq![session_byte(property::PONG, connection_number)] + le_u16(sequence)
            + le_i64(time_ticks));
    }
    r
}

/// Build a Disconnect packet carrying `connect_time`, stamped with the
/// session's `connection_number`.
pub fn build_disconnect_for(connection_number: u8, connect_time: i64) -> (r: [u8; DISCONNECT_SIZE])
    ensures
        r@ == seq![session_byte(property::DISCONNECT, connection_number)] + le_i64(connect_time),
{
    let t = connect_time as u64;
    let mut r = [0u8, 0, 0, 0, 0, 0, 0, 0, 0];
    r[0] = session_header_byte(property::DISCONNECT, connection_number);
    r[1] = t as u8;
    r[2] = (t >> 8u64) as u8;
    r[3] = (t >> 16u64) as u8;
    r[4] = (t >> 24u64) as u8;
    r[5] = (t >> 32u64) as u8;
    r[6] = (t >> 40u64) as u8;
    r[7] = (t >> 48u64) as u8;
    r[8] = (t >> 56u64) as u8;
    proof {
        assert(r@ =~= seq![session_byte(property::DISCONNECT, connection_number)] + le_i64(
            connect_time,
        ));
    }
    r
}

/// A session-stamped packet decodes to the property and connection number it
/// was built with.
pub proof fn lemma_session_byte_header(property: u8, connection_number: u8)
    requires
        property < 32,
        connection_number < 4,
    ensures
        header_of_byte(session_byte(property, connection_number)) == (Header {
            property,
            connection_number,
            fragmented: false,
        }),
{
    lemma_header_roundtrip(Header { property, connection_number, fragmented: false });
}

/// The sequence number of a Ping or Pong packet, if it is long enough.
pub open spec fn read_sequence_spec(buf: Seq<u8>) -> Option<u16> {
    if buf.len() < 3 {
        None
    } else {
        Some(read_le_u16(buf, 1))
    }
}

/// Read the sequence number from a Ping or Pong packet.
pub fn read_sequence(buf: &[u8]) -> (r: Option<u16>)
    ensures
        r == read_sequence_spec(buf@),
{
    if buf.len() < 3 {
        return None;
    }
    Some(get_le_u16(buf, 1))
}

/// The `connect_time` of a Disconnect packet, if it is long enough.
pub open spec fn read_disconnect_time_spec(buf: Seq<u8>) -> Option<i64> {
    if buf.len() < DISCONNECT_SIZE {
        None
    } else {
        Some(read_le_i64(buf, 1))
    }
}

/// Read the `connect_time` from a Disconnect packet.
pub fn read_disconnect_time(buf: &[u8]) -> (r: Option<i64>)
    ensures
        r == read_disconnect_time_spec(buf@),
{
    if buf.len() < DISCONNECT_SIZE {
        return None;
    }
    Some(get_le_u64(buf, 1) as i64)
}

/// A parsed ConnectRequest packet (fields after the target address).
#[derive(Debug, Clone, PartialEq, Eq)]
pub struct ConnectRequest {
    pub connection_number: u8,
    pub protocol_id: i32,
    pub connect_time: i64,
    pub peer_id: i32,
    /// Application connect data (the `NetDataWriter`-encoded connect key).
    pub connect_data: Vec<u8>,
}

/// The mathematical content of a [`ConnectRequest`].
pub struct ConnectRequestView {
    pub connection_number: u8,
    pub protocol_id: i32,
    pub connect_time: i64,
    pub peer_id: i32,
    pub connect_data: Seq<u8>,
}

impl View for ConnectRequest {
    type V = ConnectRequestView;

    open spec fn view(&self) -> ConnectRequestView {
        ConnectRequestView {
            connection_number: self.connection_number,
            protocol_id: self.protocol_id,
            connect_time: self.connect_time,
            peer_id: self.peer_id,
            connect_data: self.connect_data@,
        }
    }
}

/// The ConnectRequest a datagram carries: `None` when it is shorter than the
/// header, is not a ConnectRequest, has a connection number past the 2-bit
/// range, declares an address size other than 16 or 28, or is shorter than
/// that address.
pub open spec fn parse_connect_request_spec(b: Seq<u8>) -> Option<ConnectRequestView> {
    if b.len() < CONNECT_REQUEST_HEADER_SIZE {
        None
    } else {
        let h = header_of_byte(b[0]);
        let addr_size = b[CONNECT_REQUEST_HEADER_SIZE - 1] as int;
        if h.property != property::CONNECT_REQUEST {
            None
        } else if h.connection_number >= MAX_CONNECTION_NUMBER {
            None
        } else if addr_size != 16 && addr_size != 28 {
            None
        } else if b.len() < CONNECT_REQUEST_HEADER_SIZE + addr_size {
            None
        } else {
            Some(
                ConnectRequestView {
                    connection_number: h.connection_number,
                    protocol_id: read_le_i32(b, 1),
                    connect_time: read_le_i64(b, 5),
                    peer_id: read_le_i32(b, 13),
                    connect_data: b.subrange(CONNECT_REQUEST_HEADER_SIZE + addr_size, b.len() as int),
                },
            )
        }
    }
}

fn copy_from(b: &[u8], from: usize) -> (r: Vec<u8>)
    requires
        from <= b@.len(),
    ensures
        r@ == b@.subrange(from as int, b@.len() as int),
{
    let mut out: Vec<u8> = Vec::new();
    let mut i = from;
    while i < b.len()
        invariant
            from <= i <= b@.len(),
            out@ == b@.subrange(from as int, i as int),
        decreases b@.len() - i,
    {
        out.push(b[i]);
        i += 1;
        proof {
            assert(out@ =~= b@.subrange(from as int, i as int));
        }
    }
    out
}

/// Parse a ConnectRequest datagram. Returns `None` on any structural mismatch.
pub fn parse_connect_request(buf: &[u8]) -> (r: Option<ConnectRequest>)
    ensures
        match r {
            Some(req) => parse_connect_request_spec(buf@) == Some(req@),
            None => parse_connect_request_spec(buf@) is None,
        },
{
    if buf.len() < CONNECT_REQUEST_HEADER_SIZE {
        return None;
    }
    let header = Header::from_byte(buf[0]);
    if header.property != property::CONNECT_REQUEST {
        return None;
    }
    if header.connection_number >= MAX_CONNECTION_NUMBER {
        return None;
    }
    let protocol_id = get_le_u32(buf, 1) as i32;
    let connect_time = get_le_u64(buf, 5) as i64;
    let peer_id = get_le_u32(buf, 13) as i32;
    let addr_size = buf[CONNECT_REQUEST_HEADER_SIZE - 1] as usize;
    if addr_size != 16 && addr_size != 28 {
        return None;
    }
    let data_start = CONNECT_REQUEST_HEADER_SIZE + addr_size;
    if buf.len() < data_start {
        return None;
    }
    Some(
        ConnectRequest {
            connection_number: header.connection_number,
            protocol_id,
            connect_time,
            peer_id,
            connect_data: copy_from(buf, data_start),
        },
    )
}

/// The bytes of a full ConnectRequest as the LiteNetLib client writes it: the
/// header, protocol id, connect time, peer id, address-size byte, `addr_size`
/// zeroed address bytes, then the connect data.
pub open spec fn connect_request_bytes(
    connection_number: u8,
    connect_time: i64,
    peer_id: i32,
    addr_size: u8,
    connect_data: Seq<u8>,
) -> Seq<u8> {
    seq![
        byte_of_header(
            Header {
                property: property::CONNECT_REQUEST,
                connection_number,
                fragmented: false,
            },
        ),
    ] + le_i32(PROTOCOL_ID) + le_i64(connect_time) + le_i32(peer_id) + seq![addr_size] + Seq::new(
        addr_size as nat,
        |i: int| 0u8,
    ) + connect_data
}

/// Build a full ConnectRequest exactly as the LiteNetLib client would.
pub fn build_connect_request(
    connection_number: u8,
    connect_time: i64,
    peer_id: i32,
    addr_size: u8,
    connect_data: &[u8],
) -> (r: Vec<u8>)
    ensures
        r@ == connect_request_bytes(
            connection_number,
            connect_time,
            peer_id,
            addr_size,
            connect_data@,
        ),
{
    let mut out: Vec<u8> = Vec::new();
    out.push(
        Header {
            property: property::CONNECT_REQUEST,
            connection_number,
            fragmented: false,
        }.to_byte(),
    );
    push_le_u32(&mut out, PROTOCOL_ID as u32);
    push_le_u64(&mut out, connect_time as u64);
    push_le_u32(&mut out, peer_id as u32);
    out.push(addr_size);
    let ghost prefix = out@;
    let mut i: u8 = 0;
    while i < addr_size
        invariant
            i <= addr_size,
            out@ == prefix + Seq::new(i as nat, |k: int| 0u8),
        decreases addr_size - i,
    {
        out.push(0u8);
        i += 1;
        proof {
            assert(out@ =~= prefix + Seq::new(i as nat, |k: int| 0u8));
        }
    }
    push_all(&mut out, connect_data);
    proof {
        assert(out@ =~= connect_request_bytes(
            connection_number,
            connect_time,
            peer_id,
            addr_size,
            connect_data@,
        ));
    }
    out
}

/// The string a `NetDataWriter`-encoded buffer holds: a little-endian `u16`
/// length where 0 means empty and otherwise `len - 1` UTF-8 bytes follow.
/// `None` when the buffer is too short or the bytes are not valid UTF-8.
pub open spec fn read_litenet_string_spec(data: Seq<u8>) -> Option<Seq<char>> {
    if data.len() < 2 {
        None
    } else {
        let raw = read_le_u16(data, 0);
        if raw == 0 {
            Some(Seq::empty())
        } else {
            let n = raw - 1;
            if data.len() < 2 + n {
                None
            } else if valid_utf8(data.subrange(2, 2 + n)) {
                Some(decode_utf8(data.subrange(2, 2 + n)))
            } else {
                None
            }
        }
    }
}

/// Calls `String::from_utf8`, which succeeds exactly when the bytes are valid
/// UTF-8, and then holds the characters that those bytes decode to.
#[verifier::external_body]
fn string_from_utf8(bytes: Vec<u8>) -> (r: Option<String>)
    ensures
        r is Some <==> valid_utf8(bytes@),
        r matches Some(s) ==> s@ == decode_utf8(bytes@),
{
    match String::from_utf8(bytes) {
        Ok(s) => Some(s),
        Err(_) => None,
    }
}

/// Decode a `NetDataWriter`-encoded string.
pub fn read_litenet_string(data: &[u8]) -> (r: Option<String>)
    ensures
        match r {
            Some(s) => read_litenet_string_spec(data@) == Some(s@),
            None => read_litenet_string_spec(data@) is None,
        },
{
    if data.len() < 2 {
        return None;
    }
    let raw = get_le_u16(data, 0);
    if raw == 0 {
        return Some(String::new());
    }
    let n = (raw - 1) as usize;
    if data.len() < 2 + n {
        return None;
    }
    let end = 2 + n;
    let mut bytes: Vec<u8> = Vec::new();
    let mut i: usize = 2;
    while i < end
        invariant
            2 <= i <= end,
            end == 2 + n,
            end <= data@.len(),
            bytes@ == data@.subrange(2, i as int),
        decreases end - i,
    {
        bytes.push(data[i]);
        i += 1;
        proof {
            assert(bytes@ =~= data@.subrange(2, i as int));
        }
    }
    string_from_utf8(bytes)
}

/// The bytes `NetDataWriter.Put(string)` writes for a string whose UTF-8
/// encoding is `bytes`: a bare `0u16` for the empty string, else the
/// little-endian `u16` of `len + 1` (truncated to 16 bits) and the bytes.
pub open spec fn litenet_string_bytes(bytes: Seq<u8>) -> Seq<u8> {
    if bytes.len() == 0 {
        seq![0u8, 0u8]
    } else {
        le_u16(((bytes.len() + 1) % 65536) as u16) + bytes
    }
}

/// Encode a string the way `NetDataWriter.Put(string)` does.
pub fn write_litenet_string(s: &str) -> (r: Vec<u8>)
    ensures
        r@ == litenet_string_bytes(encode_utf8(s@)),
{
    let bytes = s.as_bytes();
    let mut out: Vec<u8> = Vec::new();
    if bytes.len() == 0 {
        out.push(0u8);
        out.push(0u8);
        proof {
            assert(out@ =~= litenet_string_bytes(encode_utf8(s@)));
        }
        return out;
    }
    let n = bytes.len();
    let len: u16 = ((n % 65536 + 1) % 65536) as u16;
    proof {
        assert((n % 65536 + 1) % 65536 == (n + 1) % 65536) by (nonlinear_arith);
    }
    out.push(len as u8);
    out.push((len >> 8u16) as u8);
    push_all(&mut out, bytes);
    proof {
        assert(out@ =~= litenet_string_bytes(encode_utf8(s@)));
    }
    out
}

proof fn lemma_read_le_i64_at(b: Seq<u8>, at: int, v: i64)
    requires
        0 <= at,
        at + 8 <= b.len(),
        forall|k: int| 0 <= k < 8 ==> b[at + k] == #[trigger] le_i64(v)[k],
    ensures
        read_le_i64(b, at) == v,
{
    let sub = le_u64(v as u64);
    let l = le_i64(v);
    assert(b[at + 0] == l[0] && b[at + 1] == l[1] && b[at + 2] == l[2] && b[at + 3] == l[3]);
    assert(b[at + 4] == l[4] && b[at + 5] == l[5] && b[at + 6] == l[6] && b[at + 7] == l[7]);
    lemma_le_u64_roundtrip(v as u64);
    assert(read_le_u64(b, at) == read_le_u64(sub, 0));
    assert((v as u64) as i64 == v) by (bit_vector);
}

proof fn lemma_read_le_i32_at(b: Seq<u8>, at: int, v: i32)
    requires
        0 <= at,
        at + 4 <= b.len(),
        forall|k: int| 0 <= k < 4 ==> b[at + k] == #[trigger] le_i32(v)[k],
    ensures
        read_le_i32(b, at) == v,
{
    let sub = le_u32(v as u32);
    let l = le_i32(v);
    assert(b[at + 0] == l[0] && b[at + 1] == l[1] && b[at + 2] == l[2] && b[at + 3] == l[3]);
    lemma_le_u32_roundtrip(v as u32);
    assert(read_le_u32(b, at) == read_le_u32(sub, 0));
    assert((v as u32) as i32 == v) by (bit_vector);
}

proof fn lemma_read_le_u16_at(b: Seq<u8>, at: int, v: u16)
    requires
        0 <= at,
        at + 2 <= b.len(),
        b[at] == le_u16(v)[0],
        b[at + 1] == le_u16(v)[1],
    ensures
        read_le_u16(b, at) == v,
{
    lemma_le_u16_roundtrip(v);
    assert(read_le_u16(b, at) == read_le_u16(le_u16(v), 0));
}

/// A Ping packet reads back its sequence number, whatever its header byte
/// (plain or stamped with a session's connection number).
pub proof fn lemma_ping_sequence_roundtrip(header: u8, sequence: u16)
    ensures
        read_sequence_spec(seq![header] + le_u16(sequence)) == Some(sequence),
{
    let b = seq![header] + le_u16(sequence);
    lemma_read_le_u16_at(b, 1, sequence);
}

/// A Pong packet reads back its sequence number, whatever its header byte.
pub proof fn lemma_pong_sequence_roundtrip(header: u8, sequence: u16, time_ticks: i64)
    ensures
        read_sequence_spec(seq![header] + le_u16(sequence) + le_i64(time_ticks)) == Some(sequence),
{
    let b = seq![header] + le_u16(sequence) + le_i64(time_ticks);
    lemma_read_le_u16_at(b, 1, sequence);
}

/// A Pong packet reads back the time ticks it carries, whatever its header
/// byte and sequence.
pub proof fn lemma_pong_time_roundtrip(header: u8, sequence: u16, time_ticks: i64)
    ensures
        read_le_i64(seq![header] + le_u16(sequence) + le_i64(time_ticks), 3) == time_ticks,
{
    let b = seq![header] + le_u16(sequence) + le_i64(time_ticks);
    assert forall|k: int| 0 <= k < 8 implies b[3 + k] == #[trigger] le_i64(time_ticks)[k] by {}
    lemma_read_le_i64_at(b, 3, time_ticks);
}

/// A Disconnect packet reads back the connect time it carries, whatever its
/// header byte.
pub proof fn lemma_disconnect_time_roundtrip(header: u8, connect_time: i64)
    ensures
        read_disconnect_time_spec(seq![header] + le_i64(connect_time)) == Some(connect_time),
{
    let b = seq![header] + le_i64(connect_time);
    lemma_read_le_i64_at(b, 1, connect_time);
}

/// A ConnectRequest written the way the LiteNetLib client writes it parses
/// back to its fields whenever the connection number fits its 2 bits and the
/// address size is one of the two the format knows (16 or 28).
pub proof fn lemma_connect_request_roundtrip(
    connection_number: u8,
    connect_time: i64,
    peer_id: i32,
    addr_size: u8,
    connect_data: Seq<u8>,
)
    requires
        connection_number < MAX_CONNECTION_NUMBER,
        addr_size == 16 || addr_size == 28,
    ensures
        parse_connect_request_spec(
            connect_request_bytes(connection_number, connect_time, peer_id, addr_size, connect_data),
        ) == Some(
            ConnectRequestView {
                connection_number,
                protocol_id: PROTOCOL_ID,
                connect_time,
                peer_id,
                connect_data,
            },
        ),
{
    let h = Header { property: property::CONNECT_REQUEST, connection_number, fragmented: false };
    let b = connect_request_bytes(connection_number, connect_time, peer_id, addr_size, connect_data);
    lemma_header_roundtrip(h);
    assert(b[0] == byte_of_header(h));
    assert(b[17] == addr_size);
    lemma_read_le_i32_at(b, 1, PROTOCOL_ID);
    lemma_read_le_i64_at(b, 5, connect_time);
    lemma_read_le_i32_at(b, 13, peer_id);
    assert(b.subrange(18 + addr_size, b.len() as int) =~= connect_data);
}

/// A ConnectRequest whose address size is neither 16 nor 28 is refused.
pub proof fn lemma_connect_request_rejects_bad_addr_size(
    connection_number: u8,
    connect_time: i64,
    peer_id: i32,
    addr_size: u8,
    connect_data: Seq<u8>,
)
    requires
        addr_size != 16 && addr_size != 28,
    ensures
        parse_connect_request_spec(
            connect_request_bytes(connection_number, connect_time, peer_id, addr_size, connect_data),
        ) is None,
{
    let b = connect_request_bytes(connection_number, connect_time, peer_id, addr_size, connect_data);
    assert(b[17] == addr_size);
}

/// Every string whose UTF-8 encoding is shorter than 65535 bytes reads back
/// from its `NetDataWriter` encoding unchanged.
pub proof fn lemma_litenet_string_roundtrip(chars: Seq<char>)
    requires
        encode_utf8(chars).len() < 65535,
    ensures
        read_litenet_string_spec(litenet_string_bytes(encode_utf8(chars))) == Some(chars),
{
    let bytes = encode_utf8(chars);
    let data = litenet_string_bytes(bytes);
    vstd::utf8::encode_utf8_valid_utf8(chars);
    vstd::utf8::encode_utf8_decode_utf8(chars);
    if bytes.len() == 0 {
        assert(read_le_u16(data, 0) == 0) by {
            assert(le_u16(0u16) =~= seq![0u8, 0u8]) by {
                assert((0u16 >> 8u16) as u8 == 0u8) by (bit_vector);
                assert(0u16 as u8 == 0u8) by (bit_vector);
            }
            lemma_read_le_u16_at(data, 0, 0u16);
        }
        assert(bytes =~= Seq::<u8>::empty());
        assert(decode_utf8(bytes) =~= Seq::<char>::empty()) by {
            reveal_with_fuel(decode_utf8, 1);
        }
    } else {
        let raw = ((bytes.len() + 1) % 65536) as u16;
        assert(raw == bytes.len() + 1);
        lemma_read_le_u16_at(data, 0, raw);
        assert(data.subrange(2, 2 + bytes.len() as int) =~= bytes);
    }
}

} // verus!
