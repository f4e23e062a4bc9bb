//! From a picture to shares.
//!
//! All shares but the last are random; the last is what must be added to the
//! others to give the picture. Any set of shares short of all of them is
//! random bytes and says nothing of the picture.

use crate::crypto::random_bytes;
use crate::error::PipelineError;
use crate::image_ops::{pixel_bytes, rasters, Raster, RasterImage};
use crate::merge::{
    all_opaque, channel_total, is_alpha, merged, merged_pixels, opaque, same_size, share_set,
};
use vstd::prelude::*;

verus! {

/// What is needed to split a picture: where it lies, how many shares to
/// make, and whether the picture is to be deleted afterwards.
pub struct SplitOptions {
    /// The path of the picture.
    pub input_path: String,
    /// The number of shares.
    pub num_parts: u32,
    /// Whether to delete the picture once the shares are written.
    pub delete_original: bool,
}

/// The pixel bytes of a random share: the noise with every alpha set to 255.
pub open spec fn noise_pixels(noise: Seq<u8>) -> Seq<u8> {
    opaque(noise)
}

/// The pixel bytes of the last share: alpha is 255, every other byte is the
/// picture's byte less the sum of the other shares there, modulo 256.
pub open spec fn derived_pixels(picture: Seq<u8>, others: Seq<Seq<u8>>) -> Seq<u8> {
    Seq::new(
        picture.len(),
        |b: int|
            if is_alpha(b) {
                255u8
            } else {
                ((picture[b] - channel_total(others, b, others.len() as int)) % 256) as u8
            },
    )
}

/// The sum over the first shares does not depend on a share that follows
/// them, and the sum over one share more is the sum over the others plus
/// that share.
pub proof fn lemma_channel_total_push(others: Seq<Seq<u8>>, last: Seq<u8>, b: int, n: int)
    requires
        0 <= n <= others.len(),
    ensures
        channel_total(others.push(last), b, n) == channel_total(others, b, n),
        n == others.len() ==> channel_total(others.push(last), b, n + 1) == channel_total(
            others,
            b,
            n,
        ) + last[b],
    decreases n,
{
    if n > 0 {
        lemma_channel_total_push(others, last, b, n - 1);
        assert(others.push(last)[n - 1] == others[n - 1]);
    }
    if n == others.len() {
        assert(others.push(last)[n] == last);
    }
}

/// Merging what splitting made gives the picture back: for any picture and
/// any other shares of its size, the other shares together with the derived
/// one add up to the picture in every red, green and blue byte, and to 255 in
/// every alpha. Where the picture is opaque, that is the picture itself.
pub proof fn lemma_merge_split(picture: Seq<u8>, others: Seq<Seq<u8>>)
    requires
        forall|i: int| 0 <= i < others.len() ==> (#[trigger] others[i]).len() == picture.len(),
    ensures
        merged_pixels(others.push(derived_pixels(picture, others)), picture.len()) == opaque(
            picture,
        ),
        all_opaque(picture) ==> merged_pixels(
            others.push(derived_pixels(picture, others)),
            picture.len(),
        ) == picture,
{
    let last = derived_pixels(picture, others);
    let all = others.push(last);
    let m = merged_pixels(all, picture.len());
    assert forall|b: int| 0 <= b < picture.len() implies m[b] == opaque(picture)[b] by {
        if !is_alpha(b) {
            lemma_channel_total_push(others, last, b, others.len() as int);
            let t = channel_total(others, b, others.len() as int);
            let o = picture[b] as int;
            assert(last[b] == ((o - t) % 256) as u8);
            assert((t + (o - t) % 256) % 256 == o);
        }
    }
    assert(m =~= opaque(picture));
    if all_opaque(picture) {
        assert(opaque(picture) =~= picture);
    }
}

/// A random share made of `noise`: the noise with every alpha set to 255.
pub fn share_from_noise(width: u32, height: u32, noise: Vec<u8>) -> (share: RasterImage)
    requires
        noise@.len() == 4 * width * height,
    ensures
        share@ == (Raster {
            width: width as nat,
            height: height as nat,
            pixels: noise_pixels(noise@),
        }),
{
    let mut data = noise;
    let len = data.len();
    let mut b: usize = 0;
    while b < len
        invariant
            len == data@.len(),
            len == noise@.len(),
            b <= len,
            forall|j: int| 0 <= j < b ==> data@[j] == noise_pixels(noise@)[j],
            forall|j: int| b <= j < len ==> data@[j] == noise@[j],
        decreases len - b,
    {
        if b % 4 == 3 {
            data[b] = 255;
        }
        b += 1;
    }
    assert(data@ =~= noise_pixels(noise@));
    RasterImage { width, height, data }
}

/// The last share: what must be added to `others` to give `image`.
pub fn derive_share(image: &RasterImage, others: &Vec<RasterImage>) -> (share: RasterImage)
    requires
        image.wf(),
        forall|i: int|
            0 <= i < others@.len() ==> (#[trigger] others@[i]).wf() && same_size(
                others@[i]@,
                image@,
            ),
    ensures
        share@ == (Raster {
            width: image@.width,
            height: image@.height,
            pixels: derived_pixels(image.data@, pixel_bytes(rasters(others@))),
        }),
{
    let ghost shares = pixel_bytes(rasters(others@));
    let count = others.len();
    let len = image.data.len();
    assert forall|i: int| 0 <= i < count implies (#[trigger] shares[i]).len() == len by {
        assert(shares[i] == others@[i].data@);
        assert(others@[i].wf());
        assert(same_size(others@[i]@, image@));
    }
    let mut data: Vec<u8> = Vec::with_capacity(len);
    let mut b: usize = 0;
    while b < len
        invariant
            count == others@.len(),
            len == image.data@.len(),
            shares == pixel_bytes(rasters(others@)),
            shares.len() == count,
            forall|i: int| 0 <= i < count ==> (#[trigger] shares[i]).len() == len,
            b <= len,
            data@.len() == b,
            forall|j: int| 0 <= j < b ==> data@[j] == derived_pixels(image.data@, shares)[j],
        decreases len - b,
    {
        let value: u8 = if b % 4 == 3 {
            255
        } else {
            let mut acc: u8 = image.data[b];
            let mut k: usize = 0;
            while k < count
                invariant
                    count == others@.len(),
                    len == image.data@.len(),
                    shares == pixel_bytes(rasters(others@)),
                    shares.len() == count,
                    forall|i: int| 0 <= i < count ==> (#[trigger] shares[i]).len() == len,
                    b < len,
                    k <= count,
                    acc == (image.data@[b as int] - channel_total(shares, b as int, k as int))
                        % 256,
                decreases count - k,
            {
                assert(shares[k as int] == others@[k as int].data@);
                acc = acc.wrapping_sub(others[k].data[b]);
                k += 1;
            }
            acc
        };
        data.push(value);
        b += 1;
    }
    assert(data@ =~= derived_pixels(image.data@, shares));
    RasterImage { width: image.width, height: image.height, data }
}

/// Splits `image` into `num_parts` shares: `num_parts - 1` random ones, then
/// the derived one. The shares are a share set of the size of the picture,
/// every alpha in them is 255, and merging them gives the picture with every
/// alpha set to 255.
pub fn split(image: &RasterImage, num_parts: u32) -> (shares: Vec<RasterImage>)
    requires
        image.wf(),
        num_parts >= 1,
    ensures
        shares@.len() == num_parts,
        share_set(rasters(shares@)),
        forall|i: int|
            0 <= i < shares@.len() ==> same_size((#[trigger] shares@[i])@, image@) && all_opaque(
                shares@[i].data@,
            ),
        shares@[num_parts - 1].data@ == derived_pixels(
            image.data@,
            pixel_bytes(rasters(shares@.subrange(0, num_parts - 1))),
        ),
        merged(rasters(shares@)).pixels == opaque(image.data@),
        all_opaque(image.data@) ==> merged(rasters(shares@)) == image@,
{
    let len = image.data.len();
    let mut shares: Vec<RasterImage> = Vec::new();
    let mut i: u32 = 0;
    while i < num_parts - 1
        invariant
            image.wf(),
            len == image.data@.len(),
            num_parts >= 1,
            i <= num_parts - 1,
            shares@.len() == i,
            forall|j: int|
                0 <= j < i ==> (#[trigger] shares@[j]).wf() && same_size(shares@[j]@, image@)
                    && all_opaque(shares@[j].data@),
        decreases num_parts - 1 - i,
    {
        let noise = random_bytes(len);
        let share = share_from_noise(image.width, image.height, noise);
        shares.push(share);
        i += 1;
    }
    let last = derive_share(image, &shares);
    let ghost others = shares@;
    shares.push(last);
    proof {
        let sets = rasters(shares@);
        let bytes = pixel_bytes(rasters(others));
        assert(shares@.subrange(0, num_parts - 1) =~= others);
        assert forall|j: int| 0 <= j < bytes.len() implies (#[trigger] bytes[j]).len()
            == image.data@.len() by {
            assert(bytes[j] == others[j].data@);
            assert(others[j].wf() && same_size(others[j]@, image@));
        }
        lemma_merge_split(image.data@, bytes);
        assert(pixel_bytes(sets) =~= bytes.push(last.data@));
        assert forall|j: int| 0 <= j < sets.len() implies (#[trigger] sets[j]).wf() && same_size(
            sets[j],
            sets[0],
        ) by {
            assert(sets[j] == shares@[j]@);
            assert(sets[0] == shares@[0]@);
            if j < others.len() {
                assert(shares@[j] == others[j]);
            }
            if 0 < others.len() {
                assert(shares@[0] == others[0]);
            }
        }
        assert(sets[0] == shares@[0]@);
        if 0 < others.len() {
            assert(shares@[0] == others[0]);
        }
        assert(sets[0].pixels.len() == image.data@.len());
        if all_opaque(image.data@) {
            assert(merged(sets) == image@);
        }
    }
    shares
}

/// Splits a decoded picture as the options ask: refuses a share count of
/// zero and a picture whose bytes do not match its size, and splits
/// otherwise.
pub fn run(opts: &SplitOptions, image: &RasterImage) -> (r: Result<Vec<RasterImage>, PipelineError>)
    ensures
        opts.num_parts == 0 ==> r == Err::<Vec<RasterImage>, PipelineError>(PipelineError::NoShares),
        opts.num_parts >= 1 && !image.wf() ==> r == Err::<Vec<RasterImage>, PipelineError>(
            PipelineError::DimensionMismatch,
        ),
        opts.num_parts >= 1 && image.wf() ==> r is Ok && {
            let shares = r->Ok_0@;
            &&& shares.len() == opts.num_parts
            &&& share_set(rasters(shares))
            &&& same_size(rasters(shares)[0], image@)
            &&& merged(rasters(shares)).pixels == opaque(image.data@)
        },
{
    if opts.num_parts == 0 {
        return Err(PipelineError::NoShares);
    }
    if !image.is_wf() {
        return Err(PipelineError::DimensionMismatch);
    }
    let shares = split(image, opts.num_parts);
    assert(rasters(shares@)[0] == shares@[0]@);
    Ok(shares)
}

} // verus!
