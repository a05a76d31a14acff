//! Decoding and resampling through the outside image codec.
//!
//! The codec is trusted only to hand back an RGB byte buffer of the right
//! length; what the pixels are is named as a function of the input and never
//! restated. Everything downstream — regrouping bytes into pixels, block
//! alignment, averaging — is verified.
use vstd::prelude::*;
use crate::MosaicError;
use crate::image_data::RgbImage;
use crate::image_data::to_triples;
use crate::image_data::triples_of;

verus! {

/// What the image codec decodes a byte string to: `None` when the bytes are
/// not a supported image, otherwise the width, height and raw RGB buffer of
/// the decoded picture. A function of the bytes alone.
pub uninterp spec fn decode_rgb_of(bytes: Seq<u8>) -> Option<(u32, u32, Seq<u8>)>;

/// What nearest-neighbor resampling of a raw RGB buffer of the given
/// dimensions to the new dimensions yields. A function of its arguments
/// alone.
pub uninterp spec fn nearest_resize_of(
    width: u32,
    height: u32,
    raw: Seq<u8>,
    new_width: u32,
    new_height: u32,
) -> Seq<u8>;

/// Relies on image::load_from_memory and DynamicImage::to_rgb8: a decoded
/// image converted to RGB has one byte per channel, three per pixel.
#[verifier::external_body]
pub(crate) fn decode_rgb(bytes: &Vec<u8>) -> (r: Option<(u32, u32, Vec<u8>)>)
    ensures
        match r {
            Some((w, h, raw)) => decode_rgb_of(bytes@) == Some((w, h, raw@)) && raw@.len() == 3 * (
            w as int) * (h as int),
            None => decode_rgb_of(bytes@) == None::<(u32, u32, Seq<u8>)>,
        },
{
    match image::load_from_memory(bytes.as_slice()) {
        Ok(img) => {
            let rgb = img.to_rgb8();
            Some((rgb.width(), rgb.height(), rgb.into_raw()))
        },
        Err(_) => None,
    }
}

/// Relies on DynamicImage::resize_exact with nearest-neighbor filtering,
/// and on ImageBuffer::from_raw accepting a buffer of exactly
/// `3 * width * height` bytes.
#[verifier::external_body]
pub(crate) fn resize_nearest(raw: &Vec<u8>, width: u32, height: u32, new_width: u32, new_height: u32) -> (r:
    Vec<u8>)
    requires
        raw@.len() == 3 * (width as int) * (height as int),
        width >= 1,
        height >= 1,
        new_width >= 1,
        new_height >= 1,
    ensures
        r@ == nearest_resize_of(width, height, raw@, new_width, new_height),
        r@.len() == 3 * (new_width as int) * (new_height as int),
{
    let buf = image::RgbImage::from_raw(width, height, raw.clone()).unwrap();
    let resized = image::DynamicImage::ImageRgb8(buf).resize_exact(
        new_width,
        new_height,
        image::imageops::FilterType::Nearest,
    );
    resized.to_rgb8().into_raw()
}

/// The multiple of `g` nearest to `d`, halves rounded up.
pub open spec fn aligned(d: int, g: int) -> int
    recommends
        g >= 1,
{
    ((2 * d + g) / (2 * g)) * g
}

/// Rounds a source dimension to the nearest multiple of the block size.
pub fn aligned_dim(d: u32, g: u32) -> (r: u64)
    requires
        g >= 1,
    ensures
        r == aligned(d as int, g as int),
{
    let num: u64 = 2 * (d as u64) + (g as u64);
    let den: u64 = 2 * (g as u64);
    let q: u64 = num / den;
    proof {
        assert(q * g as int <= num) by (nonlinear_arith)
            requires
                den == 2 * (g as int),
                g as int >= 1,
                q == num as int / den as int,
                num >= 0,
        ;
    }
    q * (g as u64)
}

/// A source image is usable when its bytes decode to a non-degenerate RGB
/// picture whose block-aligned dimensions still fit the machine.
pub open spec fn source_usable(bytes: Seq<u8>, g: int) -> bool {
    match decode_rgb_of(bytes) {
        Some((w, h, raw)) => w > 0 && h > 0 && aligned(w as int, g) <= u32::MAX && aligned(
            h as int,
            g,
        ) <= u32::MAX && aligned(w as int, g) * aligned(h as int, g) <= usize::MAX,
        None => false,
    }
}

/// Decodes the source image and resamples it so both dimensions are exact
/// multiples of the block size, rounding to the nearest multiple.
pub fn prepare_source(bytes: &Vec<u8>, g: u32) -> (r: Result<RgbImage, MosaicError>)
    requires
        g >= 1,
    ensures
        r is Ok <==> source_usable(bytes@, g as int),
        r matches Err(e) ==> e == MosaicError::SourceUndecodable,
        r matches Ok(img) ==> img.wf() && (decode_rgb_of(bytes@) matches Some((w, h, raw))
            ==> img.width == aligned(w as int, g as int) && img.height == aligned(
            h as int,
            g as int,
        ) && img.width % g == 0 && img.height % g == 0 && (img.width > 0 && img.height > 0
            ==> img.pixels@ == triples_of(
            nearest_resize_of(w, h, raw, img.width, img.height),
        ))),
{
    let decoded = decode_rgb(bytes);
    match decoded {
        None => Err(MosaicError::SourceUndecodable),
        Some((w, h, raw)) => {
            if w == 0 || h == 0 {
                return Err(MosaicError::SourceUndecodable);
            }
            let aw64: u64 = aligned_dim(w, g);
            let ah64: u64 = aligned_dim(h, g);
            if aw64 > 0xffff_ffffu64 || ah64 > 0xffff_ffffu64 {
                return Err(MosaicError::SourceUndecodable);
            }
            let aw: u32 = aw64 as u32;
            let ah: u32 = ah64 as u32;
            proof {
                lemma_aligned_multiple(w as int, g as int);
                lemma_aligned_multiple(h as int, g as int);
                assert((aw as u64) as int * (ah as u64) as int == aw as int * ah as int)
                    by (nonlinear_arith);
                assert(aw as int * ah as int <= u64::MAX) by (nonlinear_arith)
                    requires (aw as int) < 0x1_0000_0000, (ah as int) < 0x1_0000_0000;
            }
            if (aw as u64) * (ah as u64) > usize::MAX as u64 {
                return Err(MosaicError::SourceUndecodable);
            }
            if aw == 0 || ah == 0 {
                let img = RgbImage { width: aw, height: ah, pixels: Vec::new() };
                proof {
                    assert(img.width as int * img.height as int == 0) by (nonlinear_arith)
                        requires img.width == 0 || img.height == 0;
                }
                return Ok(img);
            }
            let resized = resize_nearest(&raw, w, h, aw, ah);
            let ghost m: int = aw as int * ah as int;
            proof {
                assert(m >= 0) by (nonlinear_arith)
                    requires m == aw as int * ah as int, aw >= 0, ah >= 0;
                assert(3 * (aw as int) * (ah as int) == 3 * m) by (nonlinear_arith)
                    requires m == aw as int * ah as int;
                assert((3 * m) % 3 == 0 && (3 * m) / 3 == m) by (nonlinear_arith)
                    requires m >= 0;
            }
            let pixels = to_triples(&resized);
            Ok(RgbImage { width: aw, height: ah, pixels })
        },
    }
}

/// An aligned dimension is an exact multiple of the block size.
proof fn lemma_aligned_multiple(d: int, g: int)
    requires
        g >= 1,
        d >= 0,
    ensures
        aligned(d, g) >= 0,
        aligned(d, g) % g == 0,
{
    let q = (2 * d + g) / (2 * g);
    assert(q >= 0) by (nonlinear_arith)
        requires 2 * d + g >= 0, 2 * g >= 1, q == (2 * d + g) / (2 * g);
    assert(q * g >= 0 && (q * g) % g == 0) by (nonlinear_arith)
        requires g >= 1, q >= 0;
}

} // verus!
