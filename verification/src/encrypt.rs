//! From a picture to container images.
//!
//! The payload is the self-check token of the key followed by the pixel
//! bytes. It is encrypted; the header and the ciphertext make the container
//! stream; the stream is cut into chunks, and each chunk, padded with zero
//! bytes to whole rows of the picture's width, is the pixel data of one
//! container image.

use crate::chunks::{
    ceil_div, ceil_div_u64, chunk_count, chunk_size, chunk_sizes, lemma_ceil_div,
    lemma_chunk_count,
};
use crate::crypto::{
    aes256_gcm_open, aes256_gcm_seal, derive_key_from_file, encrypt, generate_nonce,
    generate_salt, generate_token, hashable, password_key, password_to_key, token, zeros,
    MAX_PLAINTEXT,
};
use crate::decrypt::{
    chosen_key, decrypted, key_file_bytes, lemma_reassembled_packed, opened, password_chars,
    reassembled,
};
use crate::error::PipelineError;
use crate::header::{
    decode, encode, lemma_decode_encode, lemma_decode_prefix, Header, HeaderFields,
    FORMAT_VERSION, HEADER_SIZE,
};
use crate::image_ops::{pixel_bytes, rasters, Raster, RasterImage};
use vstd::prelude::*;
use vstd::slice::{slice_subrange, slice_to_vec};

verus! {

/// What is needed to make a container: the picture, one credential, and the
/// number of container images wanted.
pub struct EncryptOptions {
    /// The picture to hide.
    pub image: RasterImage,
    /// The password, if the key comes from one.
    pub password: Option<String>,
    /// The contents of the key file, if the key comes from one.
    pub password_file: Option<Vec<u8>>,
    /// The number of container images; one where it is not given.
    pub split: Option<u32>,
}

/// The split count that the options ask for.
pub open spec fn split_count(split: Option<u32>) -> u32 {
    match split {
        Some(n) => n,
        None => 1,
    }
}

/// The number of rows of `width` pixels that hold `len` bytes:
/// `ceil(ceil(len / 4) / width)`.
pub open spec fn container_height(len: int, width: int) -> int {
    ceil_div(ceil_div(len, 4), width)
}

/// The lesser of `x` and `total`.
pub open spec fn clip(x: int, total: int) -> int {
    if x < total {
        x
    } else {
        total
    }
}

/// Chunk `i` of `full` where every chunk but the last has `size` bytes.
pub open spec fn chunk_bytes(full: Seq<u8>, size: int, i: int) -> Seq<u8> {
    full.subrange(clip(i * size, full.len() as int), clip((i + 1) * size, full.len() as int))
}

/// The container image of a chunk: the chunk, then zero bytes up to the end
/// of the last row.
pub open spec fn padded_image(chunk: Seq<u8>, width: u32) -> Raster {
    let height = container_height(chunk.len() as int, width as int);
    Raster {
        width: width as nat,
        height: height as nat,
        pixels: chunk + zeros((4 * width * height - chunk.len()) as nat),
    }
}

/// The size of every chunk but the last: the whole stream for a split count
/// of 0 or 1, else `ceil(total / splits)`.
pub open spec fn split_size(total: int, splits: u32) -> int {
    if splits <= 1 {
        total
    } else {
        chunk_size(total, splits as int)
    }
}

/// The number of container images: one for a split count of 0 or 1, else the
/// number of chunks that are not empty.
pub open spec fn image_count(total: int, splits: u32) -> int {
    if splits <= 1 {
        1
    } else {
        chunk_count(total, chunk_size(total, splits as int))
    }
}

/// The container images of the stream `full`, in part order, or why there
/// are none: rows of zero pixels hold nothing; more parts than bytes cannot
/// be made; and an image must not be taller than a `u32` can say, nor hold
/// more bytes than a `usize` can count.
pub open spec fn packed(full: Seq<u8>, width: u32, splits: u32) -> Result<
    Seq<Raster>,
    PipelineError,
> {
    let total = full.len() as int;
    let size = split_size(total, splits);
    if width == 0 {
        Err(PipelineError::ZeroWidth)
    } else if splits > 1 && splits > total {
        Err(PipelineError::TooManyParts)
    } else if container_height(size, width as int) > u32::MAX || 4 * width * container_height(
        size,
        width as int,
    ) > usize::MAX {
        Err(PipelineError::ImageTooLarge)
    } else {
        Ok(
            Seq::new(
                image_count(total, splits) as nat,
                |i: int| padded_image(chunk_bytes(full, size, i), width),
            ),
        )
    }
}

/// Where the full chunks leave something for the last one, packing makes as
/// many images as were asked for, and chunk `i` has the size that the chunk
/// arithmetic gives it.
pub proof fn lemma_chunk_bytes_len(full: Seq<u8>, splits: u32, i: int)
    requires
        splits > 1,
        (splits - 1) * chunk_size(full.len() as int, splits as int) < full.len(),
        0 <= i < splits,
    ensures
        image_count(full.len() as int, splits) == splits,
        chunk_bytes(full, split_size(full.len() as int, splits), i).len() == chunk_sizes(
            full.len() as int,
            splits as int,
        )[i],
{
    let total = full.len() as int;
    let size = chunk_size(total, splits as int);
    lemma_ceil_div(total, splits as int);
    lemma_chunk_count(total, splits as int);
    let count = chunk_count(total, size);
    assert(count == splits) by {
        if count < splits {
            assert(count * size <= (splits - 1) * size) by (nonlinear_arith)
                requires
                    count <= splits - 1,
                    size >= 0,
            ;
        }
    }
    assert((i + 1) * size == i * size + size) by (nonlinear_arith);
    assert(i * size <= (splits - 1) * size) by (nonlinear_arith)
        requires
            i <= splits - 1,
            size >= 0,
    ;
    if i < splits - 1 {
        assert((i + 1) * size <= (splits - 1) * size) by (nonlinear_arith)
            requires
                i + 1 <= splits - 1,
                size >= 0,
        ;
    } else {
        assert(size * splits == (splits - 1) * size + size) by (nonlinear_arith);
    }
}

/// More bytes never need fewer rows, and the rows hold the bytes.
pub proof fn lemma_container_height(len: int, more: int, width: int)
    requires
        0 <= len <= more,
        0 < width,
    ensures
        0 <= container_height(len, width) <= container_height(more, width),
        len <= 4 * width * container_height(len, width),
{
    lemma_ceil_div(len, 4);
    lemma_ceil_div(more, 4);
    let p = ceil_div(len, 4);
    let q = ceil_div(more, 4);
    assert(len <= q * 4);
    assert(p <= q);
    lemma_ceil_div(p, width);
    lemma_ceil_div(q, width);
    let h = ceil_div(p, width);
    let g = ceil_div(q, width);
    assert(p <= g * width);
    assert(h <= g);
    assert(4 * width * h == 4 * (h * width)) by (nonlinear_arith);
}

/// The number of rows of `width` pixels that hold `len` bytes.
fn rows_for(len: u64, width: u32) -> (rows: u64)
    requires
        width > 0,
    ensures
        rows == container_height(len as int, width as int),
{
    ceil_div_u64(ceil_div_u64(len, 4), width as u64)
}

/// The container image of `chunk`.
fn pad_chunk(chunk: &[u8], width: u32) -> (img: RasterImage)
    requires
        width > 0,
        container_height(chunk@.len() as int, width as int) <= u32::MAX,
        4 * width * container_height(chunk@.len() as int, width as int) <= usize::MAX,
    ensures
        img@ == padded_image(chunk@, width),
{
    let len = chunk.len();
    let rows = rows_for(len as u64, width);
    proof {
        lemma_container_height(len as int, len as int, width as int);
        assert(4 * width * rows == 4 * (width * rows)) by (nonlinear_arith);
        assert(0 <= width * rows) by (nonlinear_arith)
            requires
                0 <= width,
                0 <= rows,
        ;
    }
    let pixels: u64 = (width as u64) * rows;
    let size: usize = (4 * pixels) as usize;
    let mut data = slice_to_vec(chunk);
    data.resize(size, 0u8);
    assert(data@ =~= chunk@ + zeros((size - len) as nat));
    RasterImage { width, height: rows as u32, data }
}

/// Cuts the container stream `full` into its container images, in part
/// order. A split count of 0 or 1 gives one image.
pub fn pack(full: &[u8], width: u32, splits: u32) -> (r: Result<Vec<RasterImage>, PipelineError>)
    ensures
        match packed(full@, width, splits) {
            Ok(images) => r is Ok && rasters(r->Ok_0@) == images,
            Err(e) => r == Err::<Vec<RasterImage>, PipelineError>(e),
        },
{
    let total = full.len();
    if width == 0 {
        return Err(PipelineError::ZeroWidth);
    }
    if splits > 1 && splits as u64 > total as u64 {
        return Err(PipelineError::TooManyParts);
    }
    let size: usize = if splits <= 1 {
        total
    } else {
        proof {
            lemma_chunk_count(total as int, splits as int);
            lemma_ceil_div(total as int, splits as int);
            assert(chunk_size(total as int, splits as int) <= total) by {
                let c = chunk_size(total as int, splits as int);
                assert(total as int <= total * 1);
                assert((c - 1) * splits >= c - 1) by (nonlinear_arith)
                    requires
                        c >= 1,
                        splits >= 1,
                ;
            }
        }
        ceil_div_u64(total as u64, splits as u64) as usize
    };
    assert(size == split_size(total as int, splits));
    let rows = rows_for(size as u64, width);
    if rows > 0xffff_ffff {
        return Err(PipelineError::ImageTooLarge);
    }
    proof {
        lemma_container_height(size as int, size as int, width as int);
        assert(0 <= width * rows <= 0xffff_ffff * 0xffff_ffff) by (nonlinear_arith)
            requires
                0 <= width <= 0xffff_ffff,
                0 <= rows <= 0xffff_ffff,
        ;
        assert(4 * width * rows == 4 * (width * rows)) by (nonlinear_arith);
    }
    let bytes: u128 = 4 * ((width as u128) * (rows as u128));
    if bytes > usize::MAX as u128 {
        return Err(PipelineError::ImageTooLarge);
    }
    let count: usize = if splits <= 1 {
        1
    } else {
        proof {
            lemma_chunk_count(total as int, splits as int);
        }
        ceil_div_u64(total as u64, size as u64) as usize
    };
    assert(count == image_count(total as int, splits));
    let ghost images = packed(full@, width, splits)->Ok_0;
    let mut out: Vec<RasterImage> = Vec::new();
    let mut i: usize = 0;
    let mut start: usize = 0;
    while i < count
        invariant
            total == full@.len(),
            width > 0,
            size == split_size(total as int, splits),
            size <= total,
            count == image_count(total as int, splits),
            splits > 1 ==> size >= 1 && (count - 1) * size < total <= count * size,
            splits <= 1 ==> count == 1 && size == total,
            container_height(size as int, width as int) <= u32::MAX,
            4 * width * container_height(size as int, width as int) <= usize::MAX,
            i <= count,
            start == clip(i * size, total as int),
            out@.len() == i,
            forall|j: int|
                0 <= j < i ==> (#[trigger] out@[j])@ == padded_image(
                    chunk_bytes(full@, size as int, j),
                    width,
                ),
        decreases count - i,
    {
        let end: usize = if total - start < size {
            total
        } else {
            start + size
        };
        proof {
            assert((i + 1) * size == i * size + size) by (nonlinear_arith);
            if splits > 1 {
                assert(i * size <= (count - 1) * size) by (nonlinear_arith)
                    requires
                        i <= count - 1,
                        size >= 0,
                ;
            } else {
                assert(i * size == 0) by (nonlinear_arith)
                    requires
                        i == 0,
                ;
            }
            assert(start == i * size);
            assert(end == clip((i + 1) * size, total as int));
            lemma_container_height((end - start) as int, size as int, width as int);
            assert(4 * width * container_height((end - start) as int, width as int) <= 4 * width
                * container_height(size as int, width as int)) by (nonlinear_arith)
                requires
                    0 <= container_height((end - start) as int, width as int) <= container_height(
                        size as int,
                        width as int,
                    ),
                    0 < width,
            ;
        }
        let chunk = slice_subrange(full, start, end);
        assert(chunk@ == chunk_bytes(full@, size as int, i as int));
        let img = pad_chunk(chunk, width);
        out.push(img);
        start = end;
        i += 1;
    }
    assert(rasters(out@) =~= images);
    Ok(out)
}

/// The header of the container of a picture: the payload is the token and
/// the pixel bytes, so the stream has 65 + 32 bytes more than the picture.
pub open spec fn container_header(
    pixels: Seq<u8>,
    width: u32,
    height: u32,
    key: Seq<u8>,
    salt: Seq<u8>,
    nonce: Seq<u8>,
) -> HeaderFields {
    let n = 32 + pixels.len() as int;
    let sealed = aes256_gcm_seal(key, nonce, token(key) + pixels);
    HeaderFields {
        version: FORMAT_VERSION,
        nonce,
        auth_tag: sealed.subrange(n, n + 16),
        salt,
        width,
        height,
        payload_len: (HEADER_SIZE + n) as u64,
    }
}

/// The container stream of a picture: the header, then the ciphertext of the
/// token followed by the pixel bytes. The tag is in the header, not in the
/// stream.
pub open spec fn container_stream(
    pixels: Seq<u8>,
    width: u32,
    height: u32,
    key: Seq<u8>,
    salt: Seq<u8>,
    nonce: Seq<u8>,
) -> Seq<u8> {
    let n = 32 + pixels.len() as int;
    let sealed = aes256_gcm_seal(key, nonce, token(key) + pixels);
    encode(container_header(pixels, width, height, key, salt, nonce)) + sealed.subrange(0, n)
}

/// The container images of a picture under a key, a salt and a nonce, or why
/// there are none.
pub open spec fn sealed_images(
    pixels: Seq<u8>,
    width: u32,
    height: u32,
    key: Seq<u8>,
    salt: Seq<u8>,
    nonce: Seq<u8>,
    splits: u32,
) -> Result<Seq<Raster>, PipelineError> {
    if pixels.len() != 4 * width * height {
        Err(PipelineError::DimensionMismatch)
    } else if 32 + pixels.len() > MAX_PLAINTEXT {
        Err(PipelineError::EncryptionFailed)
    } else {
        packed(container_stream(pixels, width, height, key, salt, nonce), width, splits)
    }
}

/// Whether the container stream of a picture has the length and the header
/// that it is meant to have: for a picture of four bytes per pixel that the
/// cipher takes, the stream has 65 + 32 bytes more than the picture, and the
/// header read from it is `container_header`, whose payload length is the
/// length of the whole stream.
pub open spec fn stream_is_framed(
    pixels: Seq<u8>,
    width: u32,
    height: u32,
    key: Seq<u8>,
    salt: Seq<u8>,
    nonce: Seq<u8>,
) -> bool {
    pixels.len() == 4 * width * height && 32 + pixels.len() <= MAX_PLAINTEXT ==> {
        let stream = container_stream(pixels, width, height, key, salt, nonce);
        let header = container_header(pixels, width, height, key, salt, nonce);
        &&& stream.len() == HEADER_SIZE + 32 + pixels.len()
        &&& header.wf()
        &&& header.payload_len == stream.len()
        &&& decode(stream) == Ok::<HeaderFields, PipelineError>(header)
    }
}

/// What an exec result says, with the images as mathematical values.
pub open spec fn rasters_result(r: Result<Vec<RasterImage>, PipelineError>) -> Result<
    Seq<Raster>,
    PipelineError,
> {
    match r {
        Ok(images) => Ok(rasters(images@)),
        Err(e) => Err(e),
    }
}

/// Whether every chunk of the container of a picture of `pixels` bytes holds
/// the whole header or none of it: true of one image, and of a chunk size of
/// at least 65. Only such a container can be opened again.
pub open spec fn header_in_first_chunk(pixels: int, splits: u32) -> bool {
    split_size(HEADER_SIZE + 32 + pixels, splits) >= HEADER_SIZE
}

/// Where decrypting the sealed payload gives the payload back, the
/// container stream opens to the picture, and so do the container images
/// joined again.
proof fn lemma_stream_opens(
    pixels: Seq<u8>,
    width: u32,
    height: u32,
    key: Seq<u8>,
    salt: Seq<u8>,
    nonce: Seq<u8>,
)
    requires
        pixels.len() == 4 * width * height,
        HEADER_SIZE + 32 + pixels.len() <= u64::MAX,
        token(key).len() == 32,
        salt.len() == 16,
        nonce.len() == 12,
        aes256_gcm_seal(key, nonce, token(key) + pixels).len() == 32 + pixels.len() + 16,
        aes256_gcm_open(key, nonce, aes256_gcm_seal(key, nonce, token(key) + pixels)) == Some(
            token(key) + pixels,
        ),
    ensures
        ({
            let stream = container_stream(pixels, width, height, key, salt, nonce);
            let header = container_header(pixels, width, height, key, salt, nonce);
            &&& stream.len() == HEADER_SIZE + 32 + pixels.len()
            &&& decode(stream) == Ok::<HeaderFields, PipelineError>(header)
            &&& opened(stream, key) == Ok::<Raster, PipelineError>(
                Raster { width: width as nat, height: height as nat, pixels },
            )
        }),
{
    let n = 32 + pixels.len() as int;
    let payload = token(key) + pixels;
    let sealed = aes256_gcm_seal(key, nonce, payload);
    let header = container_header(pixels, width, height, key, salt, nonce);
    let ciphertext = sealed.subrange(0, n);
    let stream = container_stream(pixels, width, height, key, salt, nonce);
    assert(stream == encode(header) + ciphertext);
    assert(header.sized());
    lemma_decode_encode(header);
    lemma_decode_prefix(encode(header), ciphertext);
    assert(decode(stream) == Ok::<HeaderFields, PipelineError>(header));
    assert(stream.subrange(HEADER_SIZE as int, stream.len() as int) =~= ciphertext);
    assert(ciphertext + header.auth_tag =~= sealed);
    assert(payload.subrange(0, 32) =~= token(key));
    assert(payload.subrange(32, payload.len() as int) =~= pixels);
}

/// Makes the container images of `image` under `key`. The salt is only
/// recorded in the header. The result is exactly `sealed_images`; the stream
/// that is cut has the length and the header of `stream_is_framed`; and where
/// every chunk holds the whole header or none of it, joining the images and
/// opening the stream under the same key gives `image` back, bit for bit.
pub fn seal(image: &RasterImage, key: &[u8; 32], salt: &[u8; 16], nonce: &[u8; 12], splits: u32) -> (r:
    Result<Vec<RasterImage>, PipelineError>)
    ensures
        rasters_result(r) == sealed_images(
            image.data@,
            image.width,
            image.height,
            key@,
            salt@,
            nonce@,
            splits,
        ),
        stream_is_framed(image.data@, image.width, image.height, key@, salt@, nonce@),
        r matches Ok(images) ==> header_in_first_chunk(image.data@.len() as int, splits) ==> {
            let stream = container_stream(
                image.data@,
                image.width,
                image.height,
                key@,
                salt@,
                nonce@,
            );
            &&& reassembled(pixel_bytes(rasters(images@))) == Ok::<Seq<u8>, PipelineError>(stream)
            &&& opened(stream, key@) == Ok::<Raster, PipelineError>(image@)
        },
{
    if !image.is_wf() {
        return Err(PipelineError::DimensionMismatch);
    }
    let full = match container_bytes(image, key, salt, nonce) {
        Ok(full) => full,
        Err(e) => {
            return Err(e);
        },
    };
    let r = pack(full.as_slice(), image.width, splits);
    proof {
        if r is Ok && header_in_first_chunk(image.data@.len() as int, splits) {
            lemma_reassembled_packed(full@, image.width, splits);
        }
    }
    r
}

/// The container stream of `image` under `key`: the header, then the
/// ciphertext of the token followed by the pixel bytes.
pub fn container_bytes(image: &RasterImage, key: &[u8; 32], salt: &[u8; 16], nonce: &[u8; 12]) -> (r:
    Result<Vec<u8>, PipelineError>)
    requires
        image.wf(),
    ensures
        r is Ok <==> 32 + image.data@.len() <= MAX_PLAINTEXT,
        r is Err ==> r->Err_0 == PipelineError::EncryptionFailed,
        r matches Ok(full) ==> {
            &&& full@ == container_stream(
                image.data@,
                image.width,
                image.height,
                key@,
                salt@,
                nonce@,
            )
            &&& full@.len() == HEADER_SIZE + 32 + image.data@.len()
            &&& stream_is_framed(image.data@, image.width, image.height, key@, salt@, nonce@)
            &&& container_header(image.data@, image.width, image.height, key@, salt@, nonce@).wf()
            &&& decode(full@) == Ok::<HeaderFields, PipelineError>(
                container_header(image.data@, image.width, image.height, key@, salt@, nonce@),
            )
            &&& opened(full@, key@) == Ok::<Raster, PipelineError>(image@)
        },
{
    let key_token = generate_token(key);
    let mut payload = slice_to_vec(key_token.as_slice());
    payload.extend_from_slice(image.data.as_slice());
    assert(payload@ =~= token(key@) + image.data@);
    let (ciphertext, auth_tag) = match encrypt(key, nonce, payload.as_slice()) {
        Ok(pair) => pair,
        Err(e) => {
            return Err(e);
        },
    };
    let ghost sealed = aes256_gcm_seal(key@, nonce@, payload@);
    let ghost n = 32 + image.data@.len() as int;
    assert(sealed == ciphertext@ + auth_tag@);
    assert(ciphertext@ =~= sealed.subrange(0, n));
    assert(auth_tag@ =~= sealed.subrange(n, n + 16));
    let payload_len: u64 = HEADER_SIZE as u64 + ciphertext.len() as u64;
    let header = Header::new(
        FORMAT_VERSION,
        *nonce,
        auth_tag,
        *salt,
        image.width,
        image.height,
        payload_len,
    );
    let header_bytes = header.to_bytes();
    let mut full = slice_to_vec(header_bytes.as_slice());
    full.extend_from_slice(ciphertext.as_slice());
    proof {
        let h = container_header(image.data@, image.width, image.height, key@, salt@, nonce@);
        assert(header@ == h);
        assert(full@ =~= encode(h) + ciphertext@);
        lemma_stream_opens(image.data@, image.width, image.height, key@, salt@, nonce@);
    }
    Ok(full)
}

/// Whether `r` is what making a container gives under `salt` and `nonce`:
/// the failure of the credentials where they give no key, else what sealing
/// gives under their key. The stream then has the length and the header that
/// it is meant to have, a key file leaves the salt all zero, and a password
/// of at most 2^32 - 1 bytes, given alone, gives a key.
pub open spec fn sealed_under(
    r: Result<Seq<Raster>, PipelineError>,
    image: RasterImage,
    password: Option<Seq<char>>,
    key_file: Option<Seq<u8>>,
    splits: u32,
    salt: Seq<u8>,
    nonce: Seq<u8>,
) -> bool {
    &&& salt.len() == 16
    &&& nonce.len() == 12
    &&& key_file is Some ==> salt == zeros(16)
    &&& password matches Some(p) ==> key_file is None && hashable(p) ==> password_key(p, salt) is Some
    &&& match chosen_key(password, key_file, salt) {
        Err(e) => r == Err::<Seq<Raster>, PipelineError>(e),
        Ok(key) => {
            &&& r == sealed_images(
                image.data@,
                image.width,
                image.height,
                key,
                salt,
                nonce,
                splits,
            )
            &&& stream_is_framed(image.data@, image.width, image.height, key, salt, nonce)
        },
    }
}

/// Makes the container images of a picture: derives the key from the one
/// credential given, under a fresh random salt where that is a password,
/// draws a fresh random nonce, and seals.
///
/// The result is what `sealed_under` says for some salt and some nonce:
/// neither or both credentials are refused, a password that cannot be hashed
/// is refused, and otherwise the images are those of sealing. Whatever salt
/// and nonce were drawn: where every chunk holds the whole header or none of
/// it, decrypting the images with the same credential gives the picture
/// back, bit for bit.
pub fn run(opts: EncryptOptions) -> (r: Result<Vec<RasterImage>, PipelineError>)
    ensures
        exists|salt: Seq<u8>, nonce: Seq<u8>| #[trigger]
            sealed_under(
                rasters_result(r),
                opts.image,
                password_chars(opts.password),
                key_file_bytes(opts.password_file),
                split_count(opts.split),
                salt,
                nonce,
            ),
        r matches Ok(images) ==> header_in_first_chunk(
            opts.image.data@.len() as int,
            split_count(opts.split),
        ) ==> decrypted(
            pixel_bytes(rasters(images@)),
            password_chars(opts.password),
            key_file_bytes(opts.password_file),
        ) == Ok::<Raster, PipelineError>(opts.image@),
{
    let ghost password = password_chars(opts.password);
    let ghost key_file = key_file_bytes(opts.password_file);
    let ghost splits = split_count(opts.split);
    let (key, salt) = match (&opts.password, &opts.password_file) {
        (None, None) => {
            let r = Err(PipelineError::MissingCredentials);
            assert(sealed_under(
                rasters_result(r),
                opts.image,
                password,
                key_file,
                splits,
                zeros(16),
                zeros(12),
            ));
            return r;
        },
        (Some(_), Some(_)) => {
            let r = Err(PipelineError::ConflictingCredentials);
            assert(sealed_under(
                rasters_result(r),
                opts.image,
                password,
                key_file,
                splits,
                zeros(16),
                zeros(12),
            ));
            return r;
        },
        (Some(text), None) => {
            let salt = generate_salt();
            match password_to_key(text.as_str(), &salt) {
                Ok(key) => (key, salt),
                Err(e) => {
                    let r = Err(e);
                    assert(sealed_under(
                        rasters_result(r),
                        opts.image,
                        password,
                        key_file,
                        splits,
                        salt@,
                        zeros(12),
                    ));
                    return r;
                },
            }
        },
        (None, Some(file)) => derive_key_from_file(file.as_slice()),
    };
    assert(chosen_key(password, key_file, salt@) == Ok::<Seq<u8>, PipelineError>(key@));
    let nonce = generate_nonce();
    let r = seal(
        &opts.image,
        &key,
        &salt,
        &nonce,
        match opts.split {
            Some(n) => n,
            None => 1,
        },
    );
    proof {
        assert(sealed_under(rasters_result(r), opts.image, password, key_file, splits, salt@, nonce@));
        if r is Ok && header_in_first_chunk(opts.image.data@.len() as int, splits) {
            lemma_decrypted_sealed(
                pixel_bytes(rasters(r->Ok_0@)),
                opts.image,
                password,
                key_file,
                key@,
                salt@,
                nonce@,
            );
        }
    }
    r
}

/// Parts that join to the container stream of a picture, and whose stream
/// opens to the picture under the key of the credentials, decrypt to the
/// picture under those credentials: the salt that the key is derived from
/// again is the one in the header.
proof fn lemma_decrypted_sealed(
    parts: Seq<Seq<u8>>,
    image: RasterImage,
    password: Option<Seq<char>>,
    key_file: Option<Seq<u8>>,
    key: Seq<u8>,
    salt: Seq<u8>,
    nonce: Seq<u8>,
)
    requires
        chosen_key(password, key_file, salt) == Ok::<Seq<u8>, PipelineError>(key),
        reassembled(parts) == Ok::<Seq<u8>, PipelineError>(
            container_stream(image.data@, image.width, image.height, key, salt, nonce),
        ),
        decode(container_stream(image.data@, image.width, image.height, key, salt, nonce)) == Ok::<
            HeaderFields,
            PipelineError,
        >(container_header(image.data@, image.width, image.height, key, salt, nonce)),
        opened(
            container_stream(image.data@, image.width, image.height, key, salt, nonce),
            key,
        ) == Ok::<Raster, PipelineError>(image@),
    ensures
        decrypted(parts, password, key_file) == Ok::<Raster, PipelineError>(image@),
{
    let header = container_header(image.data@, image.width, image.height, key, salt, nonce);
    assert(header.salt == salt);
}

} // verus!
