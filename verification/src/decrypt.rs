//! From container images back to the picture.
//!
//! The pixel bytes of the parts are joined into the container stream, the
//! stream is decrypted under the key that the credentials give, and the
//! plaintext is checked against the self-check token of the key and against
//! the size that the header announces.

use crate::chunks::{
    ceil_div_u64, chunk_size, chunk_sizes, last_chunk_size, lemma_ceil_div, lemma_chunk_count,
};
use crate::crypto::{
    aes256_gcm_open, decrypt, derive_key_from_file, file_key, generate_token, hashable,
    password_key, password_to_key, token,
};
use crate::encrypt::{chunk_bytes, image_count, packed, padded_image, split_size};
use crate::error::PipelineError;
use crate::header::{decode, lemma_decode_prefix, Header, HeaderFields, HEADER_SIZE};
use crate::image_ops::{has_pixel_count, pixel_bytes, Raster, RasterImage};
use crate::numbering::{decimal_up_to, in_number_order, number_order, parse_decimal};
use regex::Regex;
use vstd::arithmetic::div_mod::lemma_fundamental_div_mod_converse;
use vstd::prelude::*;
use vstd::slice::slice_subrange;

verus! {

/// What is needed to open a container: the pixel bytes of its images and one
/// credential.
pub struct DecryptOptions {
    /// The pixel bytes of each container image, in part order. A container
    /// of a single image is a list of one.
    pub parts: Vec<Vec<u8>>,
    /// The password, if the key comes from one.
    pub password: Option<String>,
    /// The contents of the key file, if the key comes from one.
    pub password_file: Option<Vec<u8>>,
}

/// The characters of a password, if there is one.
pub open spec fn password_chars(password: Option<String>) -> Option<Seq<char>> {
    match password {
        Some(p) => Some(p@),
        None => None,
    }
}

/// The bytes of a key file, if there is one.
pub open spec fn key_file_bytes(file: Option<Vec<u8>>) -> Option<Seq<u8>> {
    match file {
        Some(f) => Some(f@),
        None => None,
    }
}

/// The contents of each buffer of a list, in order.
pub open spec fn byte_seqs(parts: Seq<Vec<u8>>) -> Seq<Seq<u8>> {
    parts.map_values(|part: Vec<u8>| part@)
}

/// The number of bytes that part `i` of `n` gives to a stream of `total`
/// bytes: a full chunk, but for the last part, which gives what is left, and
/// nothing where the full chunks alone overrun the stream.
pub open spec fn take_len(total: int, n: int, i: int) -> int {
    let size = chunk_sizes(total, n)[i];
    if size >= 0 {
        size
    } else {
        0
    }
}

/// The container stream that the pixel bytes of the parts hold, or why they
/// hold none. The header at the start of the first part gives the length of
/// the stream; the chunk size follows from that length and from the number
/// of parts at hand; byte `p` of the stream is byte `p % size` of part
/// `p / size`.
pub open spec fn reassembled(parts: Seq<Seq<u8>>) -> Result<Seq<u8>, PipelineError> {
    let n = parts.len() as int;
    if n == 0 {
        Err(PipelineError::NoPartsFound)
    } else {
        match decode(parts[0]) {
            Err(e) => Err(e),
            Ok(h) => {
                let total = h.payload_len as int;
                let size = chunk_size(total, n);
                if !h.wf() {
                    Err(PipelineError::InvalidPayloadLength)
                } else if exists|i: int| 0 <= i < n && parts[i].len() < take_len(total, n, i) {
                    Err(PipelineError::PartTooSmall)
                } else if last_chunk_size(total, n) < 0 {
                    Err(PipelineError::ReconstructionLengthMismatch)
                } else {
                    Ok(Seq::new(total as nat, |p: int| parts[p / size][p % size]))
                }
            },
        }
    }
}

/// Joins the pixel bytes of the parts, given in part order, into the
/// container stream, and drops the padding. A single container image is a
/// list of one part.
pub fn image_bytes(parts: &Vec<Vec<u8>>) -> (r: Result<Vec<u8>, PipelineError>)
    ensures
        match reassembled(byte_seqs(parts@)) {
            Ok(stream) => r is Ok && r->Ok_0@ == stream,
            Err(e) => r == Err::<Vec<u8>, PipelineError>(e),
        },
{
    let ghost spec_parts = byte_seqs(parts@);
    let count = parts.len();
    if count == 0 {
        return Err(PipelineError::NoPartsFound);
    }
    assert(spec_parts[0] == parts@[0]@);
    let header = match Header::from_bytes(parts[0].as_slice()) {
        Ok(h) => h,
        Err(e) => {
            return Err(e);
        },
    };
    let total: u64 = header.payload_len;
    if total < HEADER_SIZE as u64 {
        return Err(PipelineError::InvalidPayloadLength);
    }
    let size: u64 = ceil_div_u64(total, count as u64);
    let ghost n = count as int;
    proof {
        lemma_ceil_div(total as int, n);
        assert(size * n == n * size) by (nonlinear_arith);
    }
    let mut out: Vec<u8> = Vec::new();
    let mut i: usize = 0;
    while i < count
        invariant
            count == parts@.len(),
            n == count,
            n >= 1,
            spec_parts == byte_seqs(parts@),
            decode(spec_parts[0]) == Ok::<HeaderFields, PipelineError>(header@),
            total == header.payload_len,
            total >= HEADER_SIZE,
            total <= n * size,
            size == chunk_size(total as int, n),
            size >= 1,
            i <= count,
            i < count ==> out@.len() == i * size,
            i == count ==> out@.len() == (n - 1) * size + take_len(total as int, n, n - 1),
            forall|j: int| 0 <= j < i ==> spec_parts[j].len() >= take_len(total as int, n, j),
            forall|p: int| 0 <= p < out@.len() ==> out@[p] == spec_parts[p / (size as int)][p % (size as int)],
        decreases count - i,
    {
        let part = &parts[i];
        assert(spec_parts[i as int] == part@);
        let have: u64 = out.len() as u64;
        let want: u64 = if i + 1 < count {
            size
        } else if have <= total {
            total - have
        } else {
            0
        };
        assert(want == take_len(total as int, n, i as int));
        if (part.len() as u64) < want {
            assert(0 <= i < n && spec_parts[i as int].len() < take_len(total as int, n, i as int));
            return Err(PipelineError::PartTooSmall);
        }
        let ghost before = out@;
        out.extend_from_slice(slice_subrange(part.as_slice(), 0, want as usize));
        proof {
            assert((i + 1) * size == i * size + size) by (nonlinear_arith);
            assert((n - 1) * size + size == n * size) by (nonlinear_arith);
            assert(want <= size);
            assert forall|p: int| 0 <= p < out@.len() implies out@[p] == spec_parts[p / (
            size as int)][p % (size as int)] by {
                if p >= before.len() {
                    let q = p - before.len();
                    assert(out@[p] == part@[q]);
                    assert(0 <= q < size);
                    lemma_fundamental_div_mod_converse(p, size as int, i as int, q);
                }
            }
        }
        i += 1;
    }
    if out.len() as u64 != total {
        return Err(PipelineError::ReconstructionLengthMismatch);
    }
    assert(out@ =~= Seq::new(
        total as nat,
        |p: int| spec_parts[p / (size as int)][p % (size as int)],
    ));
    Ok(out)
}

/// The text that the first group of the regular expression `pattern` takes
/// in the leftmost match in `text`, as UTF-8 bytes; `None` where nothing
/// matches, where the group takes part in no match, and where `pattern` is
/// no regular expression.
pub uninterp spec fn regex_first_group(pattern: Seq<char>, text: Seq<char>) -> Option<Seq<u8>>;

/// `regex::Regex::new`, then `Regex::captures` and `Captures::get(1)`: the
/// text of the first group in the leftmost match.
#[verifier::external_body]
fn first_group(pattern: &str, text: &str) -> (r: Option<Vec<u8>>)
    ensures
        match r {
            Some(bytes) => regex_first_group(pattern@, text@) == Some(bytes@),
            None => regex_first_group(pattern@, text@) is None,
        },
{
    let re = Regex::new(pattern).ok()?;
    let found = re.captures(text)?;
    found.get(1).map(|m| m.as_str().as_bytes().to_vec())
}

/// The regular expression that the name of a part file matches: a dot, the
/// part number in digits, a dot, and `png` or `PNG` at the end.
pub open spec fn part_pattern() -> Seq<char> {
    "\\.(\\d+)\\.(png|PNG)$"@
}

/// The part number in a file name, if the name is that of a part file and
/// its number fits 32 bits.
pub open spec fn part_number_of(name: Seq<char>) -> Option<u64> {
    match regex_first_group(part_pattern(), name) {
        Some(digits) => decimal_up_to(digits, u32::MAX as u64),
        None => None,
    }
}

/// The part number of each name of a list, in order.
pub open spec fn part_numbers(names: Seq<String>) -> Seq<Option<u64>> {
    names.map_values(|name: String| part_number_of(name@))
}

/// The part number in a file name such as `name.2.png`, if there is one.
pub fn part_number(name: &str) -> (r: Option<u32>)
    ensures
        match r {
            Some(n) => part_number_of(name@) == Some(n as u64),
            None => part_number_of(name@) is None,
        },
{
    match first_group("\\.(\\d+)\\.(png|PNG)$", name) {
        Some(digits) => match parse_decimal(digits.as_slice(), 0xffff_ffff) {
            Some(n) => Some(n as u32),
            None => None,
        },
        None => None,
    }
}

/// The places of the part files among files with the given part numbers, in
/// part order: ascending by number, never by the order of the listing, but
/// for files with the same number. No part file at all is an error.
pub fn order_parts(numbers: &Vec<Option<u64>>) -> (r: Result<Vec<usize>, PipelineError>)
    ensures
        match r {
            Ok(order) => order@.len() > 0 && in_number_order(numbers@, order@),
            Err(e) => e == PipelineError::NoPartsFound && forall|i: int|
                0 <= i < numbers@.len() ==> (#[trigger] numbers@[i]) is None,
        },
{
    let order = number_order(numbers);
    if order.len() == 0 {
        return Err(PipelineError::NoPartsFound);
    }
    Ok(order)
}

/// The places of the part files among the file names of a directory, in part
/// order. Names that are not those of part files are passed over.
pub fn select_parts(names: &Vec<String>) -> (r: Result<Vec<usize>, PipelineError>)
    ensures
        match r {
            Ok(order) => order@.len() > 0 && in_number_order(part_numbers(names@), order@),
            Err(e) => e == PipelineError::NoPartsFound && forall|i: int|
                0 <= i < names@.len() ==> part_number_of(#[trigger] names@[i]@) is None,
        },
{
    let count = names.len();
    let mut numbers: Vec<Option<u64>> = Vec::with_capacity(count);
    let mut i: usize = 0;
    while i < count
        invariant
            count == names@.len(),
            i <= count,
            numbers@.len() == i,
            forall|j: int| 0 <= j < i ==> numbers@[j] == part_number_of(names@[j]@),
        decreases count - i,
    {
        let number = match part_number(names[i].as_str()) {
            Some(n) => Some(n as u64),
            None => None,
        };
        numbers.push(number);
        i += 1;
    }
    assert(numbers@ =~= part_numbers(names@));
    let r = order_parts(&numbers);
    proof {
        if r is Err {
            assert forall|i: int| 0 <= i < names@.len() implies part_number_of(
                #[trigger] names@[i]@,
            ) is None by {
                assert(numbers@[i] is None);
            }
        }
    }
    r
}

/// What an exec result says, with the image as a mathematical value.
pub open spec fn raster_result(r: Result<RasterImage, PipelineError>) -> Result<
    Raster,
    PipelineError,
> {
    match r {
        Ok(img) => Ok(img@),
        Err(e) => Err(e),
    }
}

/// The picture in a decrypted payload, or why there is none: the payload
/// starts with the 32-byte token, which must be that of the key, and the rest
/// must be four bytes for each pixel that the header announces.
pub open spec fn checked_plaintext(
    plaintext: Seq<u8>,
    key_token: Seq<u8>,
    width: u32,
    height: u32,
) -> Result<Raster, PipelineError> {
    if plaintext.len() < 32 {
        Err(PipelineError::TruncatedPayload)
    } else if plaintext.subrange(0, 32) != key_token {
        Err(PipelineError::SelfCheckFailed)
    } else if plaintext.len() - 32 != 4 * width * height {
        Err(PipelineError::DimensionMismatch)
    } else {
        Ok(
            Raster {
                width: width as nat,
                height: height as nat,
                pixels: plaintext.subrange(32, plaintext.len() as int),
            },
        )
    }
}

/// The picture in a container stream under a key, or why there is none: the
/// stream opens with the header, the rest is the ciphertext, and the tag in
/// the header must verify before anything else is looked at.
pub open spec fn opened(stream: Seq<u8>, key: Seq<u8>) -> Result<Raster, PipelineError> {
    match decode(stream) {
        Err(e) => Err(e),
        Ok(h) => match aes256_gcm_open(
            key,
            h.nonce,
            stream.subrange(HEADER_SIZE as int, stream.len() as int) + h.auth_tag,
        ) {
            None => Err(PipelineError::AuthenticationFailed),
            Some(plaintext) => checked_plaintext(plaintext, token(key), h.width, h.height),
        },
    }
}

/// The key that the credentials give, or why they give none: exactly one of
/// password and key file must be there. A password is hashed under `salt`,
/// and one that cannot be hashed gives no key.
pub open spec fn chosen_key(
    password: Option<Seq<char>>,
    key_file: Option<Seq<u8>>,
    salt: Seq<u8>,
) -> Result<Seq<u8>, PipelineError> {
    match (password, key_file) {
        (None, None) => Err(PipelineError::MissingCredentials),
        (Some(_), Some(_)) => Err(PipelineError::ConflictingCredentials),
        (Some(p), None) => match password_key(p, salt) {
            Some(key) => Ok(key),
            None => Err(PipelineError::KeyDerivationFailed),
        },
        (None, Some(f)) => Ok(file_key(f)),
    }
}

/// The picture that the parts hold under the credentials, or why there is
/// none. The parts are joined first; the credentials are looked at next; a
/// password is hashed under the salt of the header.
pub open spec fn decrypted(
    parts: Seq<Seq<u8>>,
    password: Option<Seq<char>>,
    key_file: Option<Seq<u8>>,
) -> Result<Raster, PipelineError> {
    match reassembled(parts) {
        Err(e) => Err(e),
        Ok(stream) => match decode(stream) {
            Err(e) => Err(e),
            Ok(h) => match chosen_key(password, key_file, h.salt) {
                Err(e) => Err(e),
                Ok(key) => opened(stream, key),
            },
        },
    }
}

/// A stream opens to a picture only under a key that the tag verifies under
/// and whose token the payload begins with. Where the tag does not verify
/// under the key, opening fails with `AuthenticationFailed`; where it does
/// and the payload begins with another token, opening fails with
/// `SelfCheckFailed`. No other bytes are ever handed out as pixels.
pub proof fn lemma_opened_only_under_checked_key(stream: Seq<u8>, key: Seq<u8>)
    requires
        decode(stream) is Ok,
    ensures
        ({
            let h = decode(stream)->Ok_0;
            let plaintext = aes256_gcm_open(
                key,
                h.nonce,
                stream.subrange(HEADER_SIZE as int, stream.len() as int) + h.auth_tag,
            );
            &&& plaintext is None ==> opened(stream, key) == Err::<Raster, PipelineError>(
                PipelineError::AuthenticationFailed,
            )
            &&& plaintext is Some && plaintext->0.len() >= 32 && plaintext->0.subrange(0, 32)
                != token(key) ==> opened(stream, key) == Err::<Raster, PipelineError>(
                PipelineError::SelfCheckFailed,
            )
            &&& opened(stream, key) is Ok ==> plaintext is Some && plaintext->0.subrange(0, 32)
                == token(key) && opened(stream, key)->Ok_0.pixels == plaintext->0.subrange(
                32,
                plaintext->0.len() as int,
            )
        }),
{
}

/// Whether `a` and `b` hold the same bytes.
pub fn bytes_equal(a: &[u8], b: &[u8]) -> (same: bool)
    ensures
        same == (a@ == b@),
{
    if a.len() != b.len() {
        return false;
    }
    let n = a.len();
    let mut i: usize = 0;
    while i < n
        invariant
            n == a@.len(),
            n == b@.len(),
            i <= n,
            forall|j: int| 0 <= j < i ==> a@[j] == b@[j],
        decreases n - i,
    {
        if a[i] != b[i] {
            return false;
        }
        i += 1;
    }
    assert(a@ =~= b@);
    true
}

/// Checks a decrypted payload against the token of the key and the size in
/// the header, and gives the picture in it.
pub fn check_plaintext(plaintext: &[u8], key_token: &[u8; 32], width: u32, height: u32) -> (r:
    Result<RasterImage, PipelineError>)
    ensures
        raster_result(r) == checked_plaintext(plaintext@, key_token@, width, height),
{
    let len = plaintext.len();
    if len < 32 {
        return Err(PipelineError::TruncatedPayload);
    }
    if !bytes_equal(slice_subrange(plaintext, 0, 32), key_token.as_slice()) {
        return Err(PipelineError::SelfCheckFailed);
    }
    if !has_pixel_count(len - 32, width, height) {
        return Err(PipelineError::DimensionMismatch);
    }
    let data = vstd::slice::slice_to_vec(slice_subrange(plaintext, 32, len));
    Ok(RasterImage { width, height, data })
}

/// Opens a container stream under `key`: reads the header, decrypts what
/// follows it, and checks the payload.
pub fn open_payload(stream: &[u8], key: &[u8; 32]) -> (r: Result<RasterImage, PipelineError>)
    ensures
        raster_result(r) == opened(stream@, key@),
{
    let header = match Header::from_bytes(stream) {
        Ok(h) => h,
        Err(e) => {
            return Err(e);
        },
    };
    let ciphertext = slice_subrange(stream, HEADER_SIZE, stream.len());
    let plaintext = match decrypt(key, &header.nonce, ciphertext, &header.auth_tag) {
        Ok(p) => p,
        Err(e) => {
            return Err(e);
        },
    };
    let key_token = generate_token(key);
    check_plaintext(plaintext.as_slice(), &key_token, header.width, header.height)
}

/// Opens a container: joins the parts, derives the key from the one
/// credential given, decrypts, and checks the payload. The result is exactly
/// what `decrypted` says. Deriving the key fails only for a password of more
/// than 2^32 - 1 bytes.
pub fn run(opts: DecryptOptions) -> (r: Result<RasterImage, PipelineError>)
    ensures
        raster_result(r) == decrypted(
            byte_seqs(opts.parts@),
            password_chars(opts.password),
            key_file_bytes(opts.password_file),
        ),
        r == Err::<RasterImage, PipelineError>(PipelineError::KeyDerivationFailed)
            ==> opts.password is Some && !hashable(opts.password->0@),
{
    let stream = match image_bytes(&opts.parts) {
        Ok(s) => s,
        Err(e) => {
            return Err(e);
        },
    };
    let header = match Header::from_bytes(stream.as_slice()) {
        Ok(h) => h,
        Err(e) => {
            return Err(e);
        },
    };
    let key = match (&opts.password, &opts.password_file) {
        (None, None) => {
            return Err(PipelineError::MissingCredentials);
        },
        (Some(_), Some(_)) => {
            return Err(PipelineError::ConflictingCredentials);
        },
        (Some(password), None) => match password_to_key(password.as_str(), &header.salt) {
            Ok(key) => key,
            Err(e) => {
                return Err(e);
            },
        },
        (None, Some(file)) => derive_key_from_file(file.as_slice()).0,
    };
    open_payload(stream.as_slice(), &key)
}

/// Joining what packing made gives the stream back: for a stream that opens
/// with a header whose payload length is the length of the stream, cut into
/// chunks that each hold the whole header or none of it, the parts reassemble
/// to the stream, byte for byte. The number of parts found, not the split
/// count asked for, is what the chunk size is computed from again.
pub proof fn lemma_reassembled_packed(full: Seq<u8>, width: u32, splits: u32)
    requires
        decode(full) is Ok,
        decode(full)->Ok_0.payload_len == full.len(),
        packed(full, width, splits) is Ok,
        split_size(full.len() as int, splits) >= HEADER_SIZE,
    ensures
        reassembled(pixel_bytes(packed(full, width, splits)->Ok_0)) == Ok::<
            Seq<u8>,
            PipelineError,
        >(full),
{
    let total = full.len() as int;
    let images = packed(full, width, splits)->Ok_0;
    let parts = pixel_bytes(images);
    let size = split_size(total, splits);
    let n = image_count(total, splits);
    assert(parts.len() == n);
    if splits > 1 {
        lemma_chunk_count(total, splits as int);
    } else {
        assert(chunk_size(total, 1) == total) by {
            lemma_fundamental_div_mod_converse(total, 1, total, 0);
        }
    }
    assert(chunk_size(total, n) == size);
    assert((n - 1) * size < total <= n * size) by {
        if splits <= 1 {
            assert((n - 1) * size == 0) by (nonlinear_arith)
                requires
                    n == 1,
            ;
            assert(n * size == size) by (nonlinear_arith)
                requires
                    n == 1,
            ;
        }
    }
    assert forall|i: int| 0 <= i < n implies {
        &&& #[trigger] parts[i].len() >= take_len(total, n, i)
        &&& forall|q: int|
            0 <= q < size && i * size + q < total ==> parts[i][q] == full[i * size + q]
    } by {
        let chunk = chunk_bytes(full, size, i);
        assert(parts[i] == padded_image(chunk, width).pixels);
        assert(i * size <= (n - 1) * size) by (nonlinear_arith)
            requires
                i <= n - 1,
                size >= 0,
        ;
        assert((i + 1) * size == i * size + size) by (nonlinear_arith);
        if i < n - 1 {
            assert((i + 1) * size <= (n - 1) * size) by (nonlinear_arith)
                requires
                    i + 1 <= n - 1,
                    size >= 0,
            ;
        }
        assert(parts[i].len() >= chunk.len());
    }
    let h = decode(full)->Ok_0;
    assert(decode(parts[0]) == decode(full)) by {
        lemma_decode_prefix(parts[0], Seq::<u8>::empty());
        lemma_decode_prefix(full, Seq::<u8>::empty());
        assert(0 * size == 0) by (nonlinear_arith);
        assert(parts[0].subrange(0, HEADER_SIZE as int) =~= full.subrange(0, HEADER_SIZE as int));
    }
    assert(last_chunk_size(total, n) == total - (n - 1) * size);
    let joined = Seq::new(total as nat, |p: int| parts[p / size][p % size]);
    assert forall|p: int| 0 <= p < total implies joined[p] == full[p] by {
        let i = p / size;
        let q = p % size;
        vstd::arithmetic::div_mod::lemma_fundamental_div_mod(p, size);
        assert(size * i == i * size) by (nonlinear_arith);
        assert(0 <= q < size);
        assert(0 <= i) by (nonlinear_arith)
            requires
                p == i * size + q,
                0 <= p,
                q < size,
                0 < size,
        ;
        assert(i < n) by (nonlinear_arith)
            requires
                p == i * size + q,
                p < total,
                total <= n * size,
                0 <= q,
                0 < size,
        ;
        assert(parts[i].len() >= take_len(total, n, i));
    }
    assert(joined =~= full);
}

} // verus!
