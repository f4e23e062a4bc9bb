//! The fixed 65-byte record at the start of every container.
//!
//! | offset | size | field       |
//! |--------|------|-------------|
//! | 0      | 4    | magic       |
//! | 4      | 1    | version     |
//! | 5      | 12   | nonce       |
//! | 17     | 16   | auth_tag    |
//! | 33     | 16   | salt        |
//! | 49     | 4    | width       |
//! | 53     | 4    | height      |
//! | 57     | 8    | payload_len |
//!
//! Integers are big-endian.

use crate::error::{PipelineError, ErrorKind};
use byteorder::{BigEndian, ByteOrder};
use vstd::prelude::*;
use vstd::slice::slice_subrange;

verus! {

/// The number of bytes of a serialized header.
pub const HEADER_SIZE: usize = 65;

/// The format version that this library writes.
pub const FORMAT_VERSION: u8 = 1;

/// The four bytes that open every header: ASCII `P2WV`.
pub open spec fn magic() -> Seq<u8> {
    seq![0x50u8, 0x32u8, 0x57u8, 0x56u8]
}

/// The four bytes of `v`, most significant first.
pub open spec fn be32(v: u32) -> Seq<u8> {
    seq![
        (v / 0x100_0000) as u8,
        (v / 0x1_0000 % 0x100) as u8,
        (v / 0x100 % 0x100) as u8,
        (v % 0x100) as u8,
    ]
}

/// The number whose big-endian bytes are the first four of `b`.
pub open spec fn be32_value(b: Seq<u8>) -> int {
    b[0] * 0x100_0000 + b[1] * 0x1_0000 + b[2] * 0x100 + b[3]
}

/// The eight bytes of `v`, most significant first.
pub open spec fn be64(v: u64) -> Seq<u8> {
    seq![
        (v / 0x100_0000_0000_0000) as u8,
        (v / 0x1_0000_0000_0000 % 0x100) as u8,
        (v / 0x100_0000_0000 % 0x100) as u8,
        (v / 0x1_0000_0000 % 0x100) as u8,
        (v / 0x100_0000 % 0x100) as u8,
        (v / 0x1_0000 % 0x100) as u8,
        (v / 0x100 % 0x100) as u8,
        (v % 0x100) as u8,
    ]
}

/// The number whose big-endian bytes are the first eight of `b`.
pub open spec fn be64_value(b: Seq<u8>) -> int {
    b[0] * 0x100_0000_0000_0000 + b[1] * 0x1_0000_0000_0000 + b[2] * 0x100_0000_0000 + b[3]
        * 0x1_0000_0000 + b[4] * 0x100_0000 + b[5] * 0x1_0000 + b[6] * 0x100 + b[7]
}

/// What a header says, as mathematical values.
pub struct HeaderFields {
    pub version: u8,
    pub nonce: Seq<u8>,
    pub auth_tag: Seq<u8>,
    pub salt: Seq<u8>,
    pub width: u32,
    pub height: u32,
    pub payload_len: u64,
}

impl HeaderFields {
    /// The byte fields have the lengths that the layout gives them.
    pub open spec fn sized(self) -> bool {
        &&& self.nonce.len() == 12
        &&& self.auth_tag.len() == 16
        &&& self.salt.len() == 16
    }

    /// The payload length covers at least the header itself.
    pub open spec fn wf(self) -> bool {
        self.sized() && self.payload_len >= HEADER_SIZE
    }
}

/// The 65 bytes that stand for `h`.
pub open spec fn encode(h: HeaderFields) -> Seq<u8> {
    magic() + seq![h.version] + h.nonce + h.auth_tag + h.salt + be32(h.width) + be32(h.height)
        + be64(h.payload_len)
}

/// The header at the start of `buf`, or why there is none: a buffer shorter
/// than a header is truncated, and one that does not open with the magic
/// bytes is refused whatever follows them.
pub open spec fn decode(buf: Seq<u8>) -> Result<HeaderFields, PipelineError> {
    if buf.len() < HEADER_SIZE {
        Err(PipelineError::TruncatedHeader)
    } else if buf.subrange(0, 4) != magic() {
        Err(PipelineError::BadMagic)
    } else {
        Ok(
            HeaderFields {
                version: buf[4],
                nonce: buf.subrange(5, 17),
                auth_tag: buf.subrange(17, 33),
                salt: buf.subrange(33, 49),
                width: be32_value(buf.subrange(49, 53)) as u32,
                height: be32_value(buf.subrange(53, 57)) as u32,
                payload_len: be64_value(buf.subrange(57, 65)) as u64,
            },
        )
    }
}

/// The record at the start of a container: how to decrypt what follows and
/// what picture it holds.
#[derive(Debug, Clone, Copy, PartialEq, Eq)]
pub struct Header {
    /// Format version.
    pub version: u8,
    /// AES-GCM nonce of the payload.
    pub nonce: [u8; 12],
    /// AES-GCM authentication tag of the payload.
    pub auth_tag: [u8; 16],
    /// Argon2 salt; all zero when the key came from a file.
    pub salt: [u8; 16],
    /// Width of the hidden picture in pixels.
    pub width: u32,
    /// Height of the hidden picture in pixels.
    pub height: u32,
    /// Length of header plus ciphertext, without padding.
    pub payload_len: u64,
}

impl View for Header {
    type V = HeaderFields;

    open spec fn view(&self) -> HeaderFields {
        HeaderFields {
            version: self.version,
            nonce: self.nonce@,
            auth_tag: self.auth_tag@,
            salt: self.salt@,
            width: self.width,
            height: self.height,
            payload_len: self.payload_len,
        }
    }
}

/// `byteorder::BigEndian::write_u32` on the part of `buf` that starts at
/// `at`: the four bytes there become the big-endian bytes of `n`, and no
/// other byte changes.
#[verifier::external_body]
fn write_u32_at(buf: &mut [u8; 65], at: usize, n: u32)
    requires
        at + 4 <= 65,
    ensures
        final(buf)@ == old(buf)@.subrange(0, at as int) + be32(n) + old(buf)@.subrange(
            at + 4,
            65,
        ),
{
    BigEndian::write_u32(&mut buf[at..], n);
}

/// `byteorder::BigEndian::write_u64` on the part of `buf` that starts at
/// `at`: the eight bytes there become the big-endian bytes of `n`, and no
/// other byte changes.
#[verifier::external_body]
fn write_u64_at(buf: &mut [u8; 65], at: usize, n: u64)
    requires
        at + 8 <= 65,
    ensures
        final(buf)@ == old(buf)@.subrange(0, at as int) + be64(n) + old(buf)@.subrange(
            at + 8,
            65,
        ),
{
    BigEndian::write_u64(&mut buf[at..], n);
}

/// `byteorder::BigEndian::read_u32`: the number whose big-endian bytes are
/// the first four of `buf`.
#[verifier::external_body]
fn read_u32_be(buf: &[u8]) -> (n: u32)
    requires
        buf@.len() >= 4,
    ensures
        n == be32_value(buf@),
{
    BigEndian::read_u32(buf)
}

/// `byteorder::BigEndian::read_u64`: the number whose big-endian bytes are
/// the first eight of `buf`.
#[verifier::external_body]
fn read_u64_be(buf: &[u8]) -> (n: u64)
    requires
        buf@.len() >= 8,
    ensures
        n == be64_value(buf@),
{
    BigEndian::read_u64(buf)
}

/// Copies `src` over the bytes of `buf` that start at `at`.
fn put_bytes(buf: &mut [u8; 65], at: usize, src: &[u8])
    requires
        at + src@.len() <= 65,
    ensures
        final(buf)@ == old(buf)@.subrange(0, at as int) + src@ + old(buf)@.subrange(
            at + src@.len(),
            65,
        ),
{
    let n = src.len();
    let mut i: usize = 0;
    while i < n
        invariant
            n == src@.len(),
            at + n <= 65,
            i <= n,
            buf@.len() == 65,
            forall|j: int| 0 <= j < 65 ==> buf@[j] == if at <= j < at + i {
                src@[j - at]
            } else {
                old(buf)@[j]
            },
        decreases n - i,
    {
        buf[at + i] = src[i];
        i += 1;
    }
    assert(buf@ =~= old(buf)@.subrange(0, at as int) + src@ + old(buf)@.subrange(
        at + src@.len(),
        65,
    ));
}

/// The `N` bytes of `buf` that start at `at`.
fn take_bytes<const N: usize>(buf: &[u8], at: usize) -> (out: [u8; N])
    requires
        at + N <= buf@.len(),
    ensures
        out@ == buf@.subrange(at as int, at + N),
{
    let len = buf.len();
    let mut out = [0u8; N];
    let mut i: usize = 0;
    while i < N
        invariant
            len == buf@.len(),
            at + N <= len,
            i <= N,
            out@.len() == N,
            forall|j: int| 0 <= j < i ==> out@[j] == buf@[at + j],
        decreases N - i,
    {
        out[i] = buf[at + i];
        i += 1;
    }
    assert(out@ =~= buf@.subrange(at as int, at + N));
    out
}

impl Header {
    /// The payload length covers at least the header itself. A header that
    /// describes a container has this property.
    pub open spec fn wf(&self) -> bool {
        self@.wf()
    }

    /// A header with the given fields.
    pub fn new(
        version: u8,
        nonce: [u8; 12],
        auth_tag: [u8; 16],
        salt: [u8; 16],
        width: u32,
        height: u32,
        payload_len: u64,
    ) -> (h: Header)
        ensures
            h.version == version,
            h.nonce == nonce,
            h.auth_tag == auth_tag,
            h.salt == salt,
            h.width == width,
            h.height == height,
            h.payload_len == payload_len,
    {
        Header { version, nonce, auth_tag, salt, width, height, payload_len }
    }

    /// The 65 bytes that stand for this header.
    pub fn to_bytes(&self) -> (buf: [u8; 65])
        ensures
            buf@ == encode(self@),
    {
        let mut buf = [0u8; 65];
        buf[0] = 0x50;
        buf[1] = 0x32;
        buf[2] = 0x57;
        buf[3] = 0x56;
        buf[4] = self.version;
        put_bytes(&mut buf, 5, self.nonce.as_slice());
        put_bytes(&mut buf, 17, self.auth_tag.as_slice());
        put_bytes(&mut buf, 33, self.salt.as_slice());
        write_u32_at(&mut buf, 49, self.width);
        write_u32_at(&mut buf, 53, self.height);
        write_u64_at(&mut buf, 57, self.payload_len);
        assert(buf@ =~= encode(self@));
        buf
    }

    /// Reads the header at the start of `buf`. Bytes after the 65th are not
    /// looked at.
    pub fn from_bytes(buf: &[u8]) -> (r: Result<Header, PipelineError>)
        ensures
            match r {
                Ok(h) => decode(buf@) == Ok::<HeaderFields, PipelineError>(h@),
                Err(e) => decode(buf@) == Err::<HeaderFields, PipelineError>(e),
            },
    {
        if buf.len() < HEADER_SIZE {
            return Err(PipelineError::TruncatedHeader);
        }
        if buf[0] != 0x50 || buf[1] != 0x32 || buf[2] != 0x57 || buf[3] != 0x56 {
            assert(buf@.subrange(0, 4) != magic()) by {
                let m = buf@.subrange(0, 4);
                assert(m[0] == buf@[0] && m[1] == buf@[1] && m[2] == buf@[2] && m[3] == buf@[3]);
            }
            return Err(PipelineError::BadMagic);
        }
        assert(buf@.subrange(0, 4) =~= magic());
        let version = buf[4];
        let nonce = take_bytes::<12>(buf, 5);
        let auth_tag = take_bytes::<16>(buf, 17);
        let salt = take_bytes::<16>(buf, 33);
        let width = read_u32_be(slice_subrange(buf, 49, 53));
        let height = read_u32_be(slice_subrange(buf, 53, 57));
        let payload_len = read_u64_be(slice_subrange(buf, 57, 65));
        Ok(Header { version, nonce, auth_tag, salt, width, height, payload_len })
    }
}

/// Four big-endian bytes read back give the number they were written from.
pub proof fn lemma_be32_value(v: u32)
    ensures
        be32(v).len() == 4,
        be32_value(be32(v)) == v,
{
    assert((v / 0x100_0000) * 0x100_0000 + (v / 0x1_0000 % 0x100) * 0x1_0000 + (v / 0x100
        % 0x100) * 0x100 + v % 0x100 == v) by (bit_vector);
    assert(v / 0x100_0000 < 0x100) by (bit_vector);
}

/// Eight big-endian bytes read back give the number they were written from.
pub proof fn lemma_be64_value(v: u64)
    ensures
        be64(v).len() == 8,
        be64_value(be64(v)) == v,
{
    assert((v / 0x100_0000_0000_0000) * 0x100_0000_0000_0000 + (v / 0x1_0000_0000_0000 % 0x100)
        * 0x1_0000_0000_0000 + (v / 0x100_0000_0000 % 0x100) * 0x100_0000_0000 + (v
        / 0x1_0000_0000 % 0x100) * 0x1_0000_0000 + (v / 0x100_0000 % 0x100) * 0x100_0000 + (v
        / 0x1_0000 % 0x100) * 0x1_0000 + (v / 0x100 % 0x100) * 0x100 + v % 0x100 == v)
        by (bit_vector);
    assert(v / 0x100_0000_0000_0000 < 0x100) by (bit_vector);
}

/// The number read from four bytes, written again, gives those four bytes.
pub proof fn lemma_be32_bytes(b: Seq<u8>)
    requires
        b.len() == 4,
    ensures
        0 <= be32_value(b) <= u32::MAX,
        be32(be32_value(b) as u32) == b,
{
    let (b0, b1, b2, b3) = (b[0], b[1], b[2], b[3]);
    let v: int = be32_value(b);
    assert(0 <= v <= u32::MAX);
    let w: u32 = v as u32;
    assert(w == b0 * 0x100_0000 + b1 * 0x1_0000 + b2 * 0x100 + b3);
    assert(w / 0x100_0000 == b0 && w / 0x1_0000 % 0x100 == b1 && w / 0x100 % 0x100 == b2 && w
        % 0x100 == b3) by (bit_vector)
        requires
            w == b0 * 0x100_0000 + b1 * 0x1_0000 + b2 * 0x100 + b3,
    ;
    assert(be32(w) =~= b);
}

/// The number read from eight bytes, written again, gives those eight bytes.
pub proof fn lemma_be64_bytes(b: Seq<u8>)
    requires
        b.len() == 8,
    ensures
        0 <= be64_value(b) <= u64::MAX,
        be64(be64_value(b) as u64) == b,
{
    let (b0, b1, b2, b3, b4, b5, b6, b7) = (b[0], b[1], b[2], b[3], b[4], b[5], b[6], b[7]);
    let v: int = be64_value(b);
    assert(0 <= v <= u64::MAX);
    let w: u64 = v as u64;
    assert(w == b0 * 0x100_0000_0000_0000 + b1 * 0x1_0000_0000_0000 + b2 * 0x100_0000_0000 + b3
        * 0x1_0000_0000 + b4 * 0x100_0000 + b5 * 0x1_0000 + b6 * 0x100 + b7);
    assert(w / 0x100_0000_0000_0000 == b0 && w / 0x1_0000_0000_0000 % 0x100 == b1 && w
        / 0x100_0000_0000 % 0x100 == b2 && w / 0x1_0000_0000 % 0x100 == b3 && w / 0x100_0000
        % 0x100 == b4 && w / 0x1_0000 % 0x100 == b5 && w / 0x100 % 0x100 == b6 && w % 0x100
        == b7) by (bit_vector)
        requires
            w == b0 * 0x100_0000_0000_0000 + b1 * 0x1_0000_0000_0000 + b2 * 0x100_0000_0000 + b3
                * 0x1_0000_0000 + b4 * 0x100_0000 + b5 * 0x1_0000 + b6 * 0x100 + b7,
    ;
    assert(be64(w) =~= b);
}

/// A serialized header has 65 bytes.
pub proof fn lemma_encode_len(h: HeaderFields)
    requires
        h.sized(),
    ensures
        encode(h).len() == HEADER_SIZE,
{
}

/// Reading a serialized header gives the header back: `decode` undoes
/// `encode` for every header, whatever its fields hold.
pub proof fn lemma_decode_encode(h: HeaderFields)
    requires
        h.sized(),
    ensures
        decode(encode(h)) == Ok::<HeaderFields, PipelineError>(h),
{
    let buf = encode(h);
    lemma_be32_value(h.width);
    lemma_be32_value(h.height);
    lemma_be64_value(h.payload_len);
    assert(buf.len() == 65);
    assert(buf.subrange(0, 4) =~= magic());
    assert(buf.subrange(5, 17) =~= h.nonce);
    assert(buf.subrange(17, 33) =~= h.auth_tag);
    assert(buf.subrange(33, 49) =~= h.salt);
    assert(buf.subrange(49, 53) =~= be32(h.width));
    assert(buf.subrange(53, 57) =~= be32(h.height));
    assert(buf.subrange(57, 65) =~= be64(h.payload_len));
    assert(buf[4] == h.version);
}

/// Bytes appended to a serialized header do not change what is read.
pub proof fn lemma_decode_prefix(buf: Seq<u8>, rest: Seq<u8>)
    requires
        buf.len() >= HEADER_SIZE,
    ensures
        decode(buf + rest) == decode(buf),
        decode(buf.subrange(0, HEADER_SIZE as int)) == decode(buf),
{
    let a = buf + rest;
    let b = buf.subrange(0, 65);
    assert(a.subrange(0, 4) =~= buf.subrange(0, 4));
    assert(a.subrange(5, 17) =~= buf.subrange(5, 17));
    assert(a.subrange(17, 33) =~= buf.subrange(17, 33));
    assert(a.subrange(33, 49) =~= buf.subrange(33, 49));
    assert(a.subrange(49, 53) =~= buf.subrange(49, 53));
    assert(a.subrange(53, 57) =~= buf.subrange(53, 57));
    assert(a.subrange(57, 65) =~= buf.subrange(57, 65));
    assert(b.subrange(0, 4) =~= buf.subrange(0, 4));
    assert(b.subrange(5, 17) =~= buf.subrange(5, 17));
    assert(b.subrange(17, 33) =~= buf.subrange(17, 33));
    assert(b.subrange(33, 49) =~= buf.subrange(33, 49));
    assert(b.subrange(49, 53) =~= buf.subrange(49, 53));
    assert(b.subrange(53, 57) =~= buf.subrange(53, 57));
    assert(b.subrange(57, 65) =~= buf.subrange(57, 65));
}

/// Writing a header that was read gives the first 65 bytes it was read from.
pub proof fn lemma_encode_decode(buf: Seq<u8>)
    requires
        decode(buf) is Ok,
    ensures
        decode(buf)->Ok_0.sized(),
        encode(decode(buf)->Ok_0) == buf.subrange(0, HEADER_SIZE as int),
{
    let h = decode(buf)->Ok_0;
    lemma_be32_bytes(buf.subrange(49, 53));
    lemma_be32_bytes(buf.subrange(53, 57));
    lemma_be64_bytes(buf.subrange(57, 65));
    assert(buf.subrange(0, 4) == magic());
    assert(forall|i: int| 0 <= i < 4 ==> buf[i] == buf.subrange(0, 4)[i]);
    assert(encode(h) =~= buf.subrange(0, 65));
}

/// A buffer that does not open with the magic bytes is refused as badly
/// formatted, whatever the rest of it holds and however long it is.
pub proof fn lemma_corrupted_magic(buf: Seq<u8>)
    requires
        buf.len() < 4 || buf.subrange(0, 4) != magic(),
    ensures
        decode(buf) is Err,
        decode(buf)->Err_0.kind() == ErrorKind::Format,
        buf.len() >= HEADER_SIZE ==> decode(buf) == Err::<HeaderFields, PipelineError>(PipelineError::BadMagic),
{
}

} // verus!
