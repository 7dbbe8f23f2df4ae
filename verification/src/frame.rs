//! The local-IPC framing protocol: `CONN`, `DATA`, `OKOK` and `ERRO` frames.
//!
//! All multi-byte integers are big-endian. A `DATA` frame is the four ASCII
//! bytes `"DATA"`, a 4-byte big-endian payload length, then the payload.
//! `OKOK` and `ERRO` open with their four ASCII bytes; an `ERRO` frame carries
//! a diagnostic message. A `CONN` request is ASCII with whitespace-separated
//! fields.

use vstd::prelude::*;

verus! {

use vstd::slice::slice_index_get;
use vstd::slice::slice_subrange;
use vstd::slice::slice_to_vec;
use vstd::string::StringSliceAdditionalSpecFns;

/// The four ASCII bytes `"DATA"`.
pub open spec fn data_magic() -> Seq<u8> {
    seq![0x44u8, 0x41u8, 0x54u8, 0x41u8]
}

/// The four ASCII bytes `"OKOK"`.
pub open spec fn okok_magic() -> Seq<u8> {
    seq![0x4fu8, 0x4bu8, 0x4fu8, 0x4bu8]
}

/// The four ASCII bytes `"ERRO"`.
pub open spec fn erro_magic() -> Seq<u8> {
    seq![0x45u8, 0x52u8, 0x52u8, 0x4fu8]
}

/// The four ASCII bytes `"CONN"`.
pub open spec fn conn_magic() -> Seq<u8> {
    seq![0x43u8, 0x4fu8, 0x4eu8, 0x4eu8]
}

/// The ASCII space byte.
pub open spec fn space() -> u8 {
    0x20u8
}

/// The four big-endian bytes of a 32-bit value, most significant first.
pub open spec fn u32_be_bytes(x: u32) -> Seq<u8> {
    seq![
        (x >> 24) as u8,
        ((x >> 16) & 0xff) as u8,
        ((x >> 8) & 0xff) as u8,
        (x & 0xff) as u8,
    ]
}

/// The 32-bit value read from four big-endian bytes.
pub open spec fn u32_from_be(b: Seq<u8>) -> u32
    recommends
        b.len() == 4,
{
    ((b[0] as u32) * 0x1000000 + (b[1] as u32) * 0x10000 + (b[2] as u32) * 0x100 + (
    b[3] as u32)) as u32
}

/// Reading back the four big-endian bytes of a value yields that value,
/// for every 32-bit length.
pub proof fn lemma_u32_be_roundtrip(x: u32)
    ensures
        u32_from_be(u32_be_bytes(x)) == x,
{
    let b0 = (x >> 24) as u8;
    let b1 = ((x >> 16) & 0xff) as u8;
    let b2 = ((x >> 8) & 0xff) as u8;
    let b3 = (x & 0xff) as u8;
    assert((b0 as u32) * 0x1000000 + (b1 as u32) * 0x10000 + (b2 as u32) * 0x100 + (b3 as u32)
        == x) by (bit_vector)
        requires
            b0 == (x >> 24) as u8,
            b1 == ((x >> 16) & 0xff) as u8,
            b2 == ((x >> 8) & 0xff) as u8,
            b3 == (x & 0xff) as u8,
    ;
}

/// The 8-byte header of a DATA frame for a payload of the given length.
pub open spec fn spec_data_header(length: u32) -> Seq<u8> {
    data_magic() + u32_be_bytes(length)
}

/// Builds the 8-byte header of a DATA frame: the ASCII bytes `"DATA"`
/// followed by the payload length as four big-endian bytes.
pub fn encode_data_header(length: u32) -> (r: Vec<u8>)
    ensures
        r@ == spec_data_header(length),
        r@.len() == 8,
{
    let mut r: Vec<u8> = Vec::new();
    r.push(0x44u8);
    r.push(0x41u8);
    r.push(0x54u8);
    r.push(0x41u8);
    r.push((length >> 24) as u8);
    r.push(((length >> 16) & 0xff) as u8);
    r.push(((length >> 8) & 0xff) as u8);
    r.push((length & 0xff) as u8);
    proof {
        assert(r@ =~= spec_data_header(length));
    }
    r
}

/// What parsing a DATA header yields: the payload length, when the buffer
/// opens with a well-formed 8-byte header, and nothing otherwise.
pub open spec fn spec_parse_data_header(b: Seq<u8>) -> Option<u32> {
    if b.len() >= 8 && b.subrange(0, 4) == data_magic() {
        Some(u32_from_be(b.subrange(4, 8)))
    } else {
        None
    }
}

/// Parses the front of `buf` as a DATA frame header, returning the payload
/// length it announces, or nothing when the buffer is shorter than a header
/// or does not open with the ASCII bytes `"DATA"`.
pub fn parse_data_header(buf: &[u8]) -> (r: Option<u32>)
    ensures
        r == spec_parse_data_header(buf@),
{
    if buf.len() < 8 {
        assert(buf@.len() < 8);
        return None;
    }
    if !(*slice_index_get(buf, 0) == 0x44u8 && *slice_index_get(buf, 1) == 0x41u8
        && *slice_index_get(buf, 2) == 0x54u8 && *slice_index_get(buf, 3) == 0x41u8) {
        proof {
            let m = buf@.subrange(0, 4);
            assert(m[0] == buf@[0] && m[1] == buf@[1] && m[2] == buf@[2] && m[3] == buf@[3]);
        }
        return None;
    }
    let b0 = *slice_index_get(buf, 4);
    let b1 = *slice_index_get(buf, 5);
    let b2 = *slice_index_get(buf, 6);
    let b3 = *slice_index_get(buf, 7);
    let v: u32 = ((b0 as u32) << 24) | ((b1 as u32) << 16) | ((b2 as u32) << 8) | (b3 as u32);
    proof {
        assert(buf@.subrange(0, 4) =~= data_magic());
        let f = buf@.subrange(4, 8);
        assert(f[0] == b0 && f[1] == b1 && f[2] == b2 && f[3] == b3);
        assert(((b0 as u32) << 24) | ((b1 as u32) << 16) | ((b2 as u32) << 8) | (b3 as u32)
            == ((b0 as u32) * 0x1000000 + (b1 as u32) * 0x10000 + (b2 as u32) * 0x100 + (
        b3 as u32)) as u32) by (bit_vector);
    }
    Some(v)
}

/// Parsing the header built for length `L` yields `L` again, for every
/// `L` between 0 and 2^32 - 1: the DATA header round-trips.
pub proof fn lemma_data_header_roundtrip(length: u32)
    ensures
        spec_parse_data_header(spec_data_header(length)) == Some(length),
{
    let h = spec_data_header(length);
    assert(h.subrange(0, 4) =~= data_magic());
    assert(h.subrange(4, 8) =~= u32_be_bytes(length));
    lemma_u32_be_roundtrip(length);
}

/// A whole DATA frame: the header for the payload's length, then the payload.
pub open spec fn spec_data_frame(payload: Seq<u8>) -> Seq<u8>
    recommends
        payload.len() <= u32::MAX,
{
    spec_data_header(payload.len() as u32) + payload
}

/// Builds a whole DATA frame for `payload`: the 8-byte header announcing the
/// payload's length, then the payload itself. The length must fit the
/// header's 32-bit length field.
pub fn encode_data_frame(payload: &[u8]) -> (r: Vec<u8>)
    requires
        payload@.len() <= u32::MAX,
    ensures
        r@ == spec_data_frame(payload@),
{
    let mut r = encode_data_header(payload.len() as u32);
    r.extend_from_slice(payload);
    proof {
        assert(r@ =~= spec_data_frame(payload@));
    }
    r
}

/// An OKOK reply frame: just the four ASCII bytes.
pub fn encode_ok_frame() -> (r: Vec<u8>)
    ensures
        r@ == okok_magic(),
{
    let mut r: Vec<u8> = Vec::new();
    r.push(0x4fu8);
    r.push(0x4bu8);
    r.push(0x4fu8);
    r.push(0x4bu8);
    proof {
        assert(r@ =~= okok_magic());
    }
    r
}

/// An ERRO reply frame: the four ASCII bytes `"ERRO"`, a space, then the
/// diagnostic message bytes.
pub open spec fn spec_erro_frame(msg: Seq<u8>) -> Seq<u8> {
    erro_magic() + seq![space()] + msg
}

/// Builds an ERRO reply frame carrying the given diagnostic message.
pub fn encode_erro_frame(msg: &str) -> (r: Vec<u8>)
    ensures
        r@ == spec_erro_frame(msg.spec_bytes()),
{
    let mut r: Vec<u8> = Vec::new();
    r.push(0x45u8);
    r.push(0x52u8);
    r.push(0x52u8);
    r.push(0x4fu8);
    r.push(0x20u8);
    r.extend_from_slice(msg.as_bytes());
    proof {
        assert(r@ =~= spec_erro_frame(msg.spec_bytes()));
    }
    r
}

/// The CONN request line a client sends: `"CONN "`, the destination address,
/// a space, the application protocol, and a trailing space.
pub open spec fn spec_conn_msg(address: Seq<u8>, app_proto: Seq<u8>) -> Seq<u8> {
    conn_magic() + seq![space()] + address + seq![space()] + app_proto + seq![space()]
}

/// Builds the CONN request line for a destination address and an application
/// protocol.
pub fn encode_conn_msg(address: &[u8], app_proto: &[u8]) -> (r: Vec<u8>)
    ensures
        r@ == spec_conn_msg(address@, app_proto@),
{
    let mut r: Vec<u8> = Vec::new();
    r.push(0x43u8);
    r.push(0x4fu8);
    r.push(0x4eu8);
    r.push(0x4eu8);
    r.push(0x20u8);
    r.extend_from_slice(address);
    r.push(0x20u8);
    r.extend_from_slice(app_proto);
    r.push(0x20u8);
    proof {
        assert(r@ =~= spec_conn_msg(address@, app_proto@));
    }
    r
}

/// A daemon reply as a client reads it: admission or acknowledgement
/// (`OKOK`), a refusal with its diagnostic bytes (`ERRO`), or an
/// unrecognised reply.
#[derive(Debug)]
pub enum Reply {
    Accepted,
    Refused(Vec<u8>),
    Unrecognised,
}

/// Classifies a reply from the daemon by its first four bytes: `OKOK` means
/// accepted, `ERRO` means refused and the rest of the buffer is the
/// diagnostic, anything else (or fewer than four bytes) is unrecognised.
pub fn parse_reply(buf: &[u8]) -> (r: Reply)
    ensures
        r is Accepted <==> buf@.len() >= 4 && buf@.subrange(0, 4) == okok_magic(),
        r is Refused <==> buf@.len() >= 4 && buf@.subrange(0, 4) == erro_magic(),
        r is Refused ==> r->Refused_0@ == buf@.skip(4),
{
    if buf.len() < 4 {
        return Reply::Unrecognised;
    }
    let b0 = *slice_index_get(buf, 0);
    let b1 = *slice_index_get(buf, 1);
    let b2 = *slice_index_get(buf, 2);
    let b3 = *slice_index_get(buf, 3);
    proof {
        let m = buf@.subrange(0, 4);
        assert(m[0] == b0 && m[1] == b1 && m[2] == b2 && m[3] == b3);
    }
    if b0 == 0x4fu8 && b1 == 0x4bu8 && b2 == 0x4fu8 && b3 == 0x4bu8 {
        proof {
            assert(buf@.subrange(0, 4) =~= okok_magic());
        }
        Reply::Accepted
    } else if b0 == 0x45u8 && b1 == 0x52u8 && b2 == 0x52u8 && b3 == 0x4fu8 {
        proof {
            assert(buf@.subrange(0, 4) =~= erro_magic());
        }
        let msg = slice_to_vec(slice_subrange(buf, 4, buf.len()));
        Reply::Refused(msg)
    } else {
        Reply::Unrecognised
    }
}

} // verus!
