//! The binary layout of a slot file.
//!
//! ```text
//!  4 bytes  magic        b"GMSV"
//!  4 bytes  version      u32, little-endian
//! 16 bytes  salt         PBKDF2 input
//! 12 bytes  nonce        ChaCha20 input
//!  8 bytes  timestamp    i64, little-endian, Unix seconds
//!  4 bytes  payload_len  u32, little-endian
//!  N bytes  payload      ChaCha20-Poly1305 ciphertext and tag
//! ```
use crate::bytes_le::{
    array_at, i64_bits, i64_of_bits, le_bytes, le_value, lemma_i64_bits_roundtrip,
    lemma_i64_of_bits_roundtrip, lemma_le_bytes_len, lemma_le_bytes_of_value, lemma_le_value_bound,
    lemma_le_value_4, lemma_le_value_8, lemma_le_value_of_bytes, lemma_le_bytes_low, pow256, push_le,
    read_u32_le, read_u64_le,
};
use crate::crypto::{NONCE_LEN, SALT_LEN};
use crate::error::{Result, SaveError, SaveErrorView, result_view};
use vstd::prelude::*;
use vstd::string::*;

verus! {

/// The format version this library writes and reads.
pub const FORMAT_VERSION: u32 = 1;

/// Length of the salt stored in the header (bytes).
pub const LEN_SALT: usize = SALT_LEN;

/// Length of the nonce stored in the header (bytes).
pub const LEN_NONCE: usize = NONCE_LEN;

pub const OFF_MAGIC: usize = 0;
pub const LEN_MAGIC: usize = 4;
pub const OFF_VERSION: usize = OFF_MAGIC + LEN_MAGIC;
pub const LEN_VERSION: usize = 4;
pub const OFF_SALT: usize = OFF_VERSION + LEN_VERSION;
pub const OFF_NONCE: usize = OFF_SALT + LEN_SALT;
pub const OFF_TIMESTAMP: usize = OFF_NONCE + LEN_NONCE;
pub const LEN_TIMESTAMP: usize = 8;
pub const OFF_PAYLOAD_LEN: usize = OFF_TIMESTAMP + LEN_TIMESTAMP;
pub const LEN_PAYLOAD_LEN: usize = 4;

/// Size of the fixed header that precedes the payload (bytes).
pub const HEADER_SIZE: usize = OFF_PAYLOAD_LEN + LEN_PAYLOAD_LEN;

/// The magic bytes `b"GMSV"` that open every slot file.
pub open spec fn magic() -> Seq<u8> {
    seq![0x47u8, 0x4du8, 0x53u8, 0x56u8]
}

/// The fields of a header, as mathematical values.
pub struct HeaderView {
    pub version: u32,
    pub salt: Seq<u8>,
    pub nonce: Seq<u8>,
    pub timestamp: i64,
    pub payload_len: nat,
}

/// Raw fields extracted from a slot file header.
pub struct RawHeader {
    pub version: u32,
    pub salt: [u8; SALT_LEN],
    pub nonce: [u8; NONCE_LEN],
    pub timestamp: i64,
    pub payload_len: usize,
}

impl View for RawHeader {
    type V = HeaderView;

    open spec fn view(&self) -> HeaderView {
        HeaderView {
            version: self.version,
            salt: self.salt@,
            nonce: self.nonce@,
            timestamp: self.timestamp,
            payload_len: self.payload_len as nat,
        }
    }
}

/// The 48 bytes that encode a header.
pub open spec fn header_bytes(h: HeaderView) -> Seq<u8> {
    magic() + le_bytes(h.version as nat, 4) + h.salt + h.nonce + le_bytes(i64_bits(h.timestamp), 8)
        + le_bytes(h.payload_len, 4)
}

/// A whole slot file: a current-version header for `payload`, then `payload`.
/// The length field holds the low 32 bits of the payload's length.
pub open spec fn slot_file_bytes(salt: Seq<u8>, nonce: Seq<u8>, timestamp: i64, payload: Seq<u8>) -> Seq<u8> {
    header_bytes(
        HeaderView { version: FORMAT_VERSION, salt, nonce, timestamp, payload_len: payload.len() },
    ) + payload
}

/// What reading a header out of `data` gives: an error when `data` is shorter
/// than a header or does not start with the magic bytes, else the fields.
/// The version is not checked here.
pub open spec fn spec_parse_header(data: Seq<u8>) -> core::result::Result<HeaderView, SaveErrorView> {
    if data.len() < HEADER_SIZE {
        Err(SaveErrorView::InvalidFormat("file is too short"@))
    } else if data.subrange(0, 4) != magic() {
        Err(SaveErrorView::InvalidFormat("bad magic bytes"@))
    } else {
        Ok(
            HeaderView {
                version: le_value(data.subrange(4, 8)) as u32,
                salt: data.subrange(8, 24),
                nonce: data.subrange(24, 36),
                timestamp: i64_of_bits(le_value(data.subrange(36, 44))),
                payload_len: le_value(data.subrange(44, 48)),
            },
        )
    }
}

/// The two's-complement bit pattern of `v`.
pub fn i64_to_bits(v: i64) -> (u: u64)
    ensures
        u as nat == i64_bits(v),
{
    if v >= 0 {
        v as u64
    } else {
        (v + i64::MAX + 1) as u64 + 0x8000_0000_0000_0000u64
    }
}

/// The signed value whose two's-complement bit pattern is `u`.
pub fn i64_from_bits(u: u64) -> (v: i64)
    ensures
        v == i64_of_bits(u as nat),
{
    if u < 0x8000_0000_0000_0000u64 {
        u as i64
    } else {
        (u - 0x8000_0000_0000_0000u64) as i64 - i64::MAX - 1
    }
}

/// Parses the fixed-size header at the start of `data`.
///
/// Checks the length and the magic bytes, not the format version: callers
/// decide how to handle a mismatch.
pub fn parse_header(data: &[u8]) -> (r: Result<RawHeader>)
    ensures
        result_view(r, |h: RawHeader| h@) == spec_parse_header(data@),
        r matches Ok(h) ==> h.version == u32_at(data@, 4) && h.timestamp == i64_at(data@, 36),
        r matches Ok(h) ==> h.salt@ == data@.subrange(8, 24) && h.nonce@ == data@.subrange(24, 36),
        r matches Ok(h) ==> h.payload_len == u32_at(data@, 44),
{
    proof {
        if data@.len() >= 48 && data@.subrange(0, 4) == magic() {
            assert(data@[0] == data@.subrange(0, 4)[0] && data@[1] == data@.subrange(0, 4)[1]);
            assert(data@[2] == data@.subrange(0, 4)[2] && data@[3] == data@.subrange(0, 4)[3]);
            lemma_parse_header_reads_offsets(data@);
        }
    }
    if data.len() < HEADER_SIZE {
        return Err(SaveError::InvalidFormat(String::from_str("file is too short")));
    }
    if !(data[0] == 0x47u8 && data[1] == 0x4du8 && data[2] == 0x53u8 && data[3] == 0x56u8) {
        proof {
            if data@.subrange(0, 4) == magic() {
                assert(data@.subrange(0, 4)[0] == data@[0]);
                assert(data@.subrange(0, 4)[1] == data@[1]);
                assert(data@.subrange(0, 4)[2] == data@[2]);
                assert(data@.subrange(0, 4)[3] == data@[3]);
            }
        }
        return Err(SaveError::InvalidFormat(String::from_str("bad magic bytes")));
    }
    assert(data@.subrange(0, 4) =~= magic());
    let version = read_u32_le(data, OFF_VERSION);
    let salt: [u8; 16] = array_at(data, OFF_SALT);
    let nonce: [u8; 12] = array_at(data, OFF_NONCE);
    let timestamp = i64_from_bits(read_u64_le(data, OFF_TIMESTAMP));
    let payload_len = read_u32_le(data, OFF_PAYLOAD_LEN) as usize;
    Ok(RawHeader { version, salt, nonce, timestamp, payload_len })
}

/// Assembles a slot file: the current-version header for `payload`, then `payload`.
pub fn encode_slot_file(salt: &[u8; 16], nonce: &[u8; 12], timestamp: i64, payload: &[u8]) -> (buf: Vec<u8>)
    ensures
        buf@ == slot_file_bytes(salt@, nonce@, timestamp, payload@),
        buf@.len() == 48 + payload@.len(),
        buf@.subrange(0, 4) == seq![0x47u8, 0x4du8, 0x53u8, 0x56u8] && u32_at(buf@, 4) == 1,
        buf@.subrange(8, 24) == salt@ && buf@.subrange(24, 36) == nonce@,
        i64_at(buf@, 36) == timestamp && u32_at(buf@, 44) == payload@.len() % 0x1_0000_0000,
        buf@.subrange(48, 48 + payload@.len() as int) == payload@,
{
    let mut buf: Vec<u8> = Vec::new();
    buf.push(0x47u8);
    buf.push(0x4du8);
    buf.push(0x53u8);
    buf.push(0x56u8);
    assert(buf@ =~= magic());
    push_le(&mut buf, FORMAT_VERSION as u64, LEN_VERSION);
    buf.extend_from_slice(salt.as_slice());
    buf.extend_from_slice(nonce.as_slice());
    push_le(&mut buf, i64_to_bits(timestamp), LEN_TIMESTAMP);
    push_le(&mut buf, payload.len() as u64, LEN_PAYLOAD_LEN);
    buf.extend_from_slice(payload);
    assert(buf@ == slot_file_bytes(salt@, nonce@, timestamp, payload@));
    proof {
        lemma_slot_file_layout(salt@, nonce@, timestamp, payload@);
    }
    buf
}

/// A slot file is a 48-byte header followed by the payload.
pub proof fn lemma_slot_file_bytes_len(salt: Seq<u8>, nonce: Seq<u8>, timestamp: i64, payload: Seq<u8>)
    requires
        salt.len() == LEN_SALT,
        nonce.len() == LEN_NONCE,
    ensures
        slot_file_bytes(salt, nonce, timestamp, payload).len() == HEADER_SIZE + payload.len(),
{
    lemma_le_bytes_len(FORMAT_VERSION as nat, 4);
    lemma_le_bytes_len(i64_bits(timestamp), 8);
    lemma_le_bytes_len(payload.len(), 4);
}

/// Reading back an encoded header gives its fields, whatever follows it.
pub proof fn lemma_parse_header_bytes(h: HeaderView, rest: Seq<u8>)
    requires
        h.salt.len() == LEN_SALT,
        h.nonce.len() == LEN_NONCE,
        h.payload_len < 0x1_0000_0000,
    ensures
        spec_parse_header(header_bytes(h) + rest) == Ok::<HeaderView, SaveErrorView>(h),
{
    reveal_with_fuel(pow256, 9);
    let v = le_bytes(h.version as nat, 4);
    let t = le_bytes(i64_bits(h.timestamp), 8);
    let p = le_bytes(h.payload_len, 4);
    lemma_le_bytes_len(h.version as nat, 4);
    lemma_le_bytes_len(i64_bits(h.timestamp), 8);
    lemma_le_bytes_len(h.payload_len, 4);
    let d = header_bytes(h) + rest;
    assert(d.subrange(0, 4) =~= magic());
    assert(d.subrange(4, 8) =~= v);
    assert(d.subrange(8, 24) =~= h.salt);
    assert(d.subrange(24, 36) =~= h.nonce);
    assert(d.subrange(36, 44) =~= t);
    assert(d.subrange(44, 48) =~= p);
    lemma_le_value_of_bytes(h.version as nat, 4);
    lemma_i64_bits_roundtrip(h.timestamp);
    lemma_le_value_of_bytes(i64_bits(h.timestamp), 8);
    lemma_le_value_of_bytes(h.payload_len, 4);
}

/// A header that reads back is exactly the encoding of the fields read: no
/// two different headers give the same fields.
pub proof fn lemma_header_bytes_of_parse(data: Seq<u8>)
    requires
        spec_parse_header(data) is Ok,
    ensures
        header_bytes(spec_parse_header(data)->Ok_0) == data.subrange(0, HEADER_SIZE as int),
{
    reveal_with_fuel(pow256, 9);
    let h = spec_parse_header(data)->Ok_0;
    lemma_le_value_bound(data.subrange(4, 8));
    lemma_le_value_bound(data.subrange(36, 44));
    lemma_le_bytes_of_value(data.subrange(4, 8));
    lemma_le_bytes_of_value(data.subrange(36, 44));
    lemma_le_bytes_of_value(data.subrange(44, 48));
    lemma_i64_of_bits_roundtrip(le_value(data.subrange(36, 44)));
    assert(header_bytes(h) =~= data.subrange(0, HEADER_SIZE as int));
}

/// The little-endian `u32` stored in the four bytes of `d` at `off`.
pub open spec fn u32_at(d: Seq<u8>, off: int) -> int {
    d[off] + 256 * d[off + 1] + 65536 * d[off + 2] + 16777216 * d[off + 3]
}

/// The little-endian two's-complement `i64` stored in the eight bytes of `d`
/// at `off`.
pub open spec fn i64_at(d: Seq<u8>, off: int) -> int {
    let t = u32_at(d, off) + 4294967296 * u32_at(d, off + 4);
    if t < 0x8000_0000_0000_0000 {
        t
    } else {
        t - 0x1_0000_0000_0000_0000int
    }
}

/// A header that is long enough and starts with `GMSV` is read field by field
/// at its documented offsets: version at 4, salt at 8..24, nonce at 24..36,
/// timestamp at 36..44 and payload length at 44..48.
pub proof fn lemma_parse_header_reads_offsets(data: Seq<u8>)
    requires
        data.len() >= 48,
        data[0] == 0x47u8 && data[1] == 0x4du8 && data[2] == 0x53u8 && data[3] == 0x56u8,
    ensures
        spec_parse_header(data) is Ok,
        spec_parse_header(data)->Ok_0.version == u32_at(data, 4),
        spec_parse_header(data)->Ok_0.salt == data.subrange(8, 24),
        spec_parse_header(data)->Ok_0.nonce == data.subrange(24, 36),
        spec_parse_header(data)->Ok_0.timestamp == i64_at(data, 36),
        spec_parse_header(data)->Ok_0.payload_len == u32_at(data, 44),
{
    assert(data.subrange(0, 4) =~= magic());
    lemma_le_value_4(data.subrange(4, 8));
    lemma_le_value_4(data.subrange(44, 48));
    lemma_le_value_8(data.subrange(36, 44));
}

/// A slot file is laid out as documented: `GMSV`, version 1, the salt, the
/// nonce, the timestamp, the payload length (modulo 2^32), then the payload.
pub proof fn lemma_slot_file_layout(salt: Seq<u8>, nonce: Seq<u8>, timestamp: i64, payload: Seq<u8>)
    requires
        salt.len() == 16,
        nonce.len() == 12,
    ensures
        slot_file_bytes(salt, nonce, timestamp, payload).len() == 48 + payload.len(),
        slot_file_bytes(salt, nonce, timestamp, payload).subrange(0, 4) == seq![0x47u8, 0x4du8, 0x53u8, 0x56u8],
        u32_at(slot_file_bytes(salt, nonce, timestamp, payload), 4) == 1,
        slot_file_bytes(salt, nonce, timestamp, payload).subrange(8, 24) == salt,
        slot_file_bytes(salt, nonce, timestamp, payload).subrange(24, 36) == nonce,
        i64_at(slot_file_bytes(salt, nonce, timestamp, payload), 36) == timestamp,
        u32_at(slot_file_bytes(salt, nonce, timestamp, payload), 44) == payload.len() % 0x1_0000_0000,
        slot_file_bytes(salt, nonce, timestamp, payload).subrange(48, 48 + payload.len() as int) == payload,
{
    reveal_with_fuel(pow256, 9);
    let b = slot_file_bytes(salt, nonce, timestamp, payload);
    let v = le_bytes(FORMAT_VERSION as nat, 4);
    let t = le_bytes(i64_bits(timestamp), 8);
    let p = le_bytes(payload.len(), 4);
    lemma_le_bytes_len(FORMAT_VERSION as nat, 4);
    lemma_le_bytes_len(i64_bits(timestamp), 8);
    lemma_le_bytes_len(payload.len(), 4);
    assert(b.subrange(0, 4) =~= magic());
    assert(b.subrange(4, 8) =~= v);
    assert(b.subrange(8, 24) =~= salt);
    assert(b.subrange(24, 36) =~= nonce);
    assert(b.subrange(36, 44) =~= t);
    assert(b.subrange(44, 48) =~= p);
    assert(b.subrange(48, 48 + payload.len() as int) =~= payload);
    lemma_le_value_of_bytes(FORMAT_VERSION as nat, 4);
    lemma_le_value_4(v);
    assert(u32_at(b, 4) == u32_at(v, 0));
    lemma_i64_bits_roundtrip(timestamp);
    lemma_le_value_of_bytes(i64_bits(timestamp), 8);
    lemma_le_value_8(t);
    assert(u32_at(b, 36) == u32_at(t, 0));
    assert(u32_at(b, 40) == u32_at(t, 4));
    lemma_le_bytes_low(payload.len(), 4);
    lemma_le_value_of_bytes(payload.len() % 0x1_0000_0000, 4);
    lemma_le_value_4(p);
    assert(u32_at(b, 44) == u32_at(p, 0));
}

} // verus!
