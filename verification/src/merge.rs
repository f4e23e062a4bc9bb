//! From shares back to the picture.
//!
//! Every red, green and blue byte of the picture is the sum, modulo 256, of
//! the bytes at that place in all the shares. Alpha is 255 everywhere.

use crate::error::PipelineError;
use crate::image_ops::{pixel_bytes, rasters, Raster, RasterImage};
use crate::numbering::{decimal_up_to, in_number_order, number_order, parse_decimal};
use std::path::Path;
use vstd::prelude::*;
use vstd::slice::slice_subrange;
use vstd::utf8::encode_utf8;

verus! {

/// What is needed to merge shares: the paths of all of them, each with its
/// number before the extension, and the path of the picture to write.
pub struct MergeOptions {
    /// The paths of the shares.
    pub input: Vec<String>,
    /// The path of the merged picture.
    pub output: String,
}

/// `std::path::Path::file_stem` on `path`, as text: the file name without
/// its extension, or `None` where the path has no file name. What counts as
/// a file name is the platform's matter, so nothing is claimed of the result.
#[verifier::external_body]
fn file_stem(path: &str) -> (stem: Option<String>) {
    Path::new(path).file_stem().and_then(|s| s.to_str()).map(|s| s.to_string())
}

/// The place of the last dot in `s`, or -1 where there is none.
pub open spec fn last_dot(s: Seq<u8>) -> int
    decreases s.len(),
{
    if s.len() == 0 {
        -1
    } else if s.last() == 0x2e {
        s.len() - 1
    } else {
        last_dot(s.drop_last())
    }
}

/// The share number in the stem of a file name, given as UTF-8 bytes: what
/// follows the last dot, read as a decimal number. A stem without a dot has
/// none.
pub open spec fn share_number_of(stem: Seq<u8>) -> Option<u64> {
    if last_dot(stem) < 0 {
        None
    } else {
        decimal_up_to(stem.subrange(last_dot(stem) + 1, stem.len() as int), usize::MAX as u64)
    }
}

/// The share number of each stem of a list, in order; a missing stem has
/// none.
pub open spec fn share_numbers(stems: Seq<Option<Seq<u8>>>) -> Seq<Option<u64>> {
    stems.map_values(
        |stem: Option<Seq<u8>>|
            match stem {
                Some(s) => share_number_of(s),
                None => None,
            },
    )
}

/// The UTF-8 bytes of each stem of a list, in order.
pub open spec fn stem_bytes(stems: Seq<Option<String>>) -> Seq<Option<Seq<u8>>> {
    stems.map_values(
        |stem: Option<String>|
            match stem {
                Some(s) => Some(encode_utf8(s@)),
                None => None,
            },
    )
}

/// Whether the numbers at the places of `order` count up from one: the
/// first is 1, the next 2, and so on without a gap.
pub open spec fn counts_up(numbers: Seq<Option<u64>>, order: Seq<usize>) -> bool {
    forall|k: int| 0 <= k < order.len() ==> numbers[(#[trigger] order[k]) as int] == Some((k + 1) as u64)
}

/// Whether `r` is the order in which shares with the given stems are to be
/// read, or the reason why there is none. An empty list is refused; so is a
/// path without a file name; stems without a number are passed over; and the
/// numbers of the others, put in ascending order, must be exactly 1, 2, ..,
/// N.
pub open spec fn stem_order(stems: Seq<Option<Seq<u8>>>, r: Result<Seq<usize>, PipelineError>) -> bool {
    let numbers = share_numbers(stems);
    let named = forall|i: int| 0 <= i < stems.len() ==> (#[trigger] stems[i]) is Some;
    match r {
        Ok(order) => stems.len() > 0 && named && in_number_order(numbers, order) && counts_up(
            numbers,
            order,
        ),
        Err(PipelineError::EmptyInput) => stems.len() == 0,
        Err(PipelineError::InvalidFilename) => stems.len() > 0 && !named,
        Err(PipelineError::InvalidPartSequence) => stems.len() > 0 && named && exists|
            order: Seq<usize>,
        |
            in_number_order(numbers, order) && !counts_up(numbers, order),
        Err(_) => false,
    }
}

/// What an exec result says, with the order as a mathematical value.
pub open spec fn order_result(r: Result<Vec<usize>, PipelineError>) -> Result<
    Seq<usize>,
    PipelineError,
> {
    match r {
        Ok(order) => Ok(order@),
        Err(e) => Err(e),
    }
}

/// The share number in the stem of a file name such as `name.2`, if there
/// is one.
pub fn share_number(stem: &str) -> (r: Option<usize>)
    ensures
        match r {
            Some(n) => share_number_of(encode_utf8(stem@)) == Some(n as u64),
            None => share_number_of(encode_utf8(stem@)) is None,
        },
{
    let bytes = stem.as_bytes();
    let len = bytes.len();
    let mut i: usize = len;
    assert(bytes@.subrange(0, len as int) =~= bytes@);
    while i > 0 && bytes[i - 1] != 0x2e
        invariant
            len == bytes@.len(),
            i <= len,
            last_dot(bytes@) == last_dot(bytes@.subrange(0, i as int)),
        decreases i,
    {
        assert(bytes@.subrange(0, i as int).drop_last() =~= bytes@.subrange(0, i - 1));
        i -= 1;
    }
    if i == 0 {
        return None;
    }
    assert(last_dot(bytes@) == i - 1);
    match parse_decimal(slice_subrange(bytes, i, len), usize::MAX as u64) {
        Some(n) => Some(n as usize),
        None => None,
    }
}

/// The order in which shares with the given stems are to be read: the places
/// of the stems, ascending by share number. A missing stem stands for a path
/// without a file name.
pub fn order_by_stems(stems: &Vec<Option<String>>) -> (r: Result<Vec<usize>, PipelineError>)
    ensures
        stem_order(stem_bytes(stems@), order_result(r)),
{
    let ghost spec_stems = stem_bytes(stems@);
    let count = stems.len();
    if count == 0 {
        return Err(PipelineError::EmptyInput);
    }
    let mut numbers: Vec<Option<u64>> = Vec::with_capacity(count);
    let mut i: usize = 0;
    while i < count
        invariant
            count == stems@.len(),
            count > 0,
            spec_stems == stem_bytes(stems@),
            i <= count,
            numbers@.len() == i,
            forall|j: int| 0 <= j < i ==> (#[trigger] spec_stems[j]) is Some,
            forall|j: int| 0 <= j < i ==> numbers@[j] == share_numbers(spec_stems)[j],
        decreases count - i,
    {
        let number = match &stems[i] {
            None => {
                assert(spec_stems[i as int] is None);
                return Err(PipelineError::InvalidFilename);
            },
            Some(stem) => match share_number(stem.as_str()) {
                Some(n) => Some(n as u64),
                None => None,
            },
        };
        assert(spec_stems[i as int] == Some(encode_utf8(stems@[i as int]->0@)));
        numbers.push(number);
        i += 1;
    }
    assert(numbers@ =~= share_numbers(spec_stems));
    let order = number_order(&numbers);
    let len = order.len();
    let mut k: usize = 0;
    while k < len
        invariant
            len == order@.len(),
            k <= len,
            spec_stems == stem_bytes(stems@),
            spec_stems.len() > 0,
            forall|j: int| 0 <= j < spec_stems.len() ==> (#[trigger] spec_stems[j]) is Some,
            numbers@ == share_numbers(spec_stems),
            in_number_order(numbers@, order@),
            forall|j: int| 0 <= j < k ==> numbers@[(#[trigger] order@[j]) as int] == Some((j + 1) as u64),
        decreases len - k,
    {
        let found = numbers[order[k]];
        let expected: u64 = k as u64 + 1;
        match found {
            Some(n) if n == expected => {},
            _ => {
                assert(!counts_up(numbers@, order@));
                return Err(PipelineError::InvalidPartSequence);
            },
        }
        k += 1;
    }
    Ok(order)
}

/// The order in which the shares of the options are to be read: the places
/// in `opts.input`, ascending by share number. The result is what
/// `stem_order` says of the stems that the platform finds in the paths.
pub fn ordered_inputs(opts: &MergeOptions) -> (r: Result<Vec<usize>, PipelineError>)
    ensures
        exists|stems: Seq<Option<Seq<u8>>>|
            stems.len() == opts.input@.len() && #[trigger] stem_order(stems, order_result(r)),
{
    let count = opts.input.len();
    let mut stems: Vec<Option<String>> = Vec::with_capacity(count);
    let mut i: usize = 0;
    while i < count
        invariant
            count == opts.input@.len(),
            i <= count,
            stems@.len() == i,
        decreases count - i,
    {
        stems.push(file_stem(opts.input[i].as_str()));
        i += 1;
    }
    let r = order_by_stems(&stems);
    assert(stem_order(stem_bytes(stems@), order_result(r)));
    r
}

/// The sum of the bytes at place `b` in the first `n` shares.
pub open spec fn channel_total(shares: Seq<Seq<u8>>, b: int, n: int) -> int
    decreases n,
{
    if n <= 0 {
        0
    } else {
        channel_total(shares, b, n - 1) + shares[n - 1][b]
    }
}

/// Whether place `b` of a pixel buffer holds an alpha value.
pub open spec fn is_alpha(b: int) -> bool {
    b % 4 == 3
}

/// The pixel bytes that the shares add up to: alpha is 255, every other byte
/// is the sum of the shares there, modulo 256.
pub open spec fn merged_pixels(shares: Seq<Seq<u8>>, len: nat) -> Seq<u8> {
    Seq::new(
        len,
        |b: int|
            if is_alpha(b) {
                255u8
            } else {
                (channel_total(shares, b, shares.len() as int) % 256) as u8
            },
    )
}

/// The pixel bytes with every alpha set to 255.
pub open spec fn opaque(pixels: Seq<u8>) -> Seq<u8> {
    Seq::new(
        pixels.len(),
        |b: int|
            if is_alpha(b) {
                255u8
            } else {
                pixels[b]
            },
    )
}

/// Whether every alpha of the pixel bytes is 255.
pub open spec fn all_opaque(pixels: Seq<u8>) -> bool {
    forall|b: int| 0 <= b < pixels.len() && is_alpha(b) ==> pixels[b] == 255u8
}

/// Every alpha of a merged picture is 255, whatever the shares hold.
pub proof fn lemma_merged_is_opaque(shares: Seq<Seq<u8>>, len: nat)
    ensures
        merged_pixels(shares, len).len() == len,
        all_opaque(merged_pixels(shares, len)),
{
}

/// Whether two images have the same width and the same height.
pub open spec fn same_size(a: Raster, b: Raster) -> bool {
    a.width == b.width && a.height == b.height
}

/// Whether the images are a share set: at least one, each with four bytes
/// per pixel, all of the width and height of the first.
pub open spec fn share_set(shares: Seq<Raster>) -> bool {
    &&& shares.len() >= 1
    &&& forall|i: int|
        0 <= i < shares.len() ==> (#[trigger] shares[i]).wf() && same_size(shares[i], shares[0])
}

/// The picture that a share set adds up to.
pub open spec fn merged(shares: Seq<Raster>) -> Raster {
    Raster {
        width: shares[0].width,
        height: shares[0].height,
        pixels: merged_pixels(pixel_bytes(shares), shares[0].pixels.len()),
    }
}

/// What merging gives, or why it gives nothing: there must be a share, and
/// all shares must have the same width and height.
pub open spec fn merge_outcome(shares: Seq<Raster>) -> Result<Raster, PipelineError> {
    if shares.len() == 0 {
        Err(PipelineError::NoPartsFound)
    } else if exists|i: int| 0 <= i < shares.len() && !same_size(#[trigger] shares[i], shares[0]) {
        Err(PipelineError::InconsistentDimensions)
    } else if exists|i: int| 0 <= i < shares.len() && !(#[trigger] shares[i]).wf() {
        Err(PipelineError::DimensionMismatch)
    } else {
        Ok(merged(shares))
    }
}

/// Adds the shares up into the picture.
pub fn merge(parts: &[RasterImage]) -> (picture: RasterImage)
    requires
        share_set(rasters(parts@)),
    ensures
        picture@ == merged(rasters(parts@)),
{
    let ghost shares = pixel_bytes(rasters(parts@));
    let count = parts.len();
    let first = &parts[0];
    assert(rasters(parts@)[0] == first@);
    let len = first.data.len();
    let mut data: Vec<u8> = Vec::with_capacity(len);
    let mut b: usize = 0;
    while b < len
        invariant
            count == parts@.len(),
            count >= 1,
            shares == pixel_bytes(rasters(parts@)),
            shares.len() == count,
            forall|i: int| 0 <= i < count ==> (#[trigger] shares[i]).len() == len,
            b <= len,
            data@.len() == b,
            forall|j: int| 0 <= j < b ==> data@[j] == merged_pixels(shares, len as nat)[j],
        decreases len - b,
    {
        let value: u8 = if b % 4 == 3 {
            255
        } else {
            let mut acc: u8 = 0;
            let mut k: usize = 0;
            while k < count
                invariant
                    count == parts@.len(),
                    shares == pixel_bytes(rasters(parts@)),
                    shares.len() == count,
                    forall|i: int| 0 <= i < count ==> (#[trigger] shares[i]).len() == len,
                    b < len,
                    k <= count,
                    acc == channel_total(shares, b as int, k as int) % 256,
                decreases count - k,
            {
                assert(shares[k as int] == parts@[k as int].data@);
                acc = acc.wrapping_add(parts[k].data[b]);
                k += 1;
            }
            acc
        };
        data.push(value);
        b += 1;
    }
    assert(data@ =~= merged_pixels(shares, len as nat));
    RasterImage { width: first.width, height: first.height, data }
}

/// Merges decoded shares: checks that there is one and that all have the
/// size of the first, then adds them up.
pub fn run(parts: &[RasterImage]) -> (r: Result<RasterImage, PipelineError>)
    ensures
        crate::decrypt::raster_result(r) == merge_outcome(rasters(parts@)),
{
    let ghost shares = rasters(parts@);
    let count = parts.len();
    if count == 0 {
        return Err(PipelineError::NoPartsFound);
    }
    let width = parts[0].width;
    let height = parts[0].height;
    assert(shares[0] == parts@[0]@);
    let mut i: usize = 0;
    while i < count
        invariant
            count == parts@.len(),
            shares == rasters(parts@),
            shares[0].width == width,
            shares[0].height == height,
            i <= count,
            forall|j: int| 0 <= j < i ==> same_size(#[trigger] shares[j], shares[0]),
        decreases count - i,
    {
        assert(shares[i as int] == parts@[i as int]@);
        if parts[i].width != width || parts[i].height != height {
            return Err(PipelineError::InconsistentDimensions);
        }
        i += 1;
    }
    let mut i: usize = 0;
    while i < count
        invariant
            count == parts@.len(),
            shares == rasters(parts@),
            count >= 1,
            i <= count,
            forall|j: int| 0 <= j < count ==> same_size(#[trigger] shares[j], shares[0]),
            forall|j: int| 0 <= j < i ==> (#[trigger] shares[j]).wf(),
        decreases count - i,
    {
        assert(shares[i as int] == parts@[i as int]@);
        if !parts[i].is_wf() {
            return Err(PipelineError::DimensionMismatch);
        }
        i += 1;
    }
    Ok(merge(parts))
}

} // verus!
