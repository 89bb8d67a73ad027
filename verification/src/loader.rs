//! Background JPEG decoding: decoding, orienting and downsizing images, and which jobs are worth it.
use crate::frame::{frame_decodes, frame_ok};
use crate::meta::{rows_of, Exposure, Meta};
pub use crate::scale::fit_within;
use crate::scale::{at_least_one, fit_of, law_fits, law_never_upscales};
use crate::tags::{exif_of, exif_view, orientation, orientation_of, ExifData, ExifView};
use fast_image_resize::images::{Image, ImageRef};
use fast_image_resize::{FilterType, PixelType, ResizeAlg, ResizeOptions, Resizer};
use vstd::prelude::*;
use vstd::string::*;
use zune_jpeg::zune_core::bytestream::ZCursor;
use zune_jpeg::zune_core::colorspace::ColorSpace;
use zune_jpeg::zune_core::options::DecoderOptions;
use zune_jpeg::JpegDecoder;

verus! {

/// Long edge of review-grid thumbnails, in physical pixels.
pub const THUMB_PX: u32 = 360;

/// Screen-fit images further than this from the cursor are not worth decoding.
pub const PREFETCH_WINDOW: usize = 4;

/// Tightly packed 8-bit RGBA.
pub struct Rgba {
    pub width: u32,
    pub height: u32,
    pub data: Vec<u8>,
}

#[derive(Debug, Clone, Copy, PartialEq, Eq, Hash, Structural)]
pub enum JobKind {
    /// Screen-sized image (plus a thumbnail) for browsing.
    Fit,
    /// Full resolution image for focus peek.
    Full,
    /// Thumbnail only, for the review grid.
    Thumb,
}

pub enum Payload {
    Fit { fit: Rgba, thumb: Rgba, full_width: u32, full_height: u32, meta: Meta },
    Full(Rgba),
    Thumb(Rgba),
    /// The job became irrelevant before it started.
    Skipped,
}

pub struct Loaded {
    pub idx: usize,
    pub kind: JobKind,
    pub result: Result<Payload, String>,
}

/// Four bytes for every pixel.
pub open spec fn pixel_bytes(w: int, h: int) -> int {
    4 * (w * h)
}

impl Rgba {
    /// The data is tightly packed.
    pub open spec fn packed(&self) -> bool {
        self.data@.len() == pixel_bytes(self.width as int, self.height as int)
    }

    /// The four bytes of the pixel in column `x` of row `y`.
    pub open spec fn pixel(&self, x: int, y: int) -> Seq<u8> {
        self.data@.subrange(4 * (y * self.width + x), 4 * (y * self.width + x) + 4)
    }

    /// The same size and the same bytes.
    pub open spec fn same(&self, other: Rgba) -> bool {
        self.width == other.width && self.height == other.height && self.data@ == other.data@
    }
}

/// Whether an EXIF orientation swaps width and height.
pub open spec fn swaps(orientation: u32) -> bool {
    5 <= orientation <= 8
}

/// Dimensions after applying an EXIF orientation.
pub open spec fn oriented(w: u32, h: u32, orientation: u32) -> (u32, u32) {
    if swaps(orientation) {
        (h, w)
    } else {
        (w, h)
    }
}

/// Which pixel of a `w` by `h` image is shown in column `x` of row `y`.
pub open spec fn source(orientation: u32, w: int, h: int, x: int, y: int) -> (int, int) {
    if orientation == 2 {
        (w - 1 - x, y)
    } else if orientation == 3 {
        (w - 1 - x, h - 1 - y)
    } else if orientation == 4 {
        (x, h - 1 - y)
    } else if orientation == 5 {
        (y, x)
    } else if orientation == 6 {
        (y, h - 1 - x)
    } else if orientation == 7 {
        (w - 1 - y, h - 1 - x)
    } else if orientation == 8 {
        (w - 1 - y, x)
    } else {
        (x, y)
    }
}

/// `out` shows `img` with the orientation applied.
pub open spec fn is_oriented(img: Rgba, orientation: u32, out: Rgba) -> bool {
    &&& (out.width, out.height) == oriented(img.width, img.height, orientation)
    &&& out.packed()
    &&& forall|x: int, y: int|
        0 <= x < out.width && 0 <= y < out.height ==> #[trigger] out.pixel(x, y) == ({
            let s = source(orientation, img.width as int, img.height as int, x, y);
            img.pixel(s.0, s.1)
        })
}

/// Dimensions after applying an EXIF orientation (5-8 swap width and height).
pub fn oriented_dims(w: u32, h: u32, orientation: u32) -> (r: (u32, u32))
    ensures
        r == oriented(w, h, orientation),
{
    if 5 <= orientation && orientation <= 8 {
        (h, w)
    } else {
        (w, h)
    }
}

/// A place within an image has an index among its pixels.
proof fn lemma_index(w: int, h: int, x: int, y: int)
    requires
        0 <= x < w,
        0 <= y < h,
    ensures
        0 <= y * w + x < w * h,
        y * w >= 0,
        w * h == h * w,
{
    assert(0 <= y * w + x < w * h && y * w >= 0 && w * h == h * w) by (nonlinear_arith)
        requires
            0 <= x < w,
            0 <= y < h,
    ;
}

/// Apply an EXIF orientation so the image displays upright.
pub fn orient(img: Rgba, orientation: u32) -> (r: Rgba)
    requires
        img.packed(),
    ensures
        is_oriented(img, orientation, r),
        orientation <= 1 || orientation > 8 ==> r == img,
{
    if orientation <= 1 || orientation > 8 {
        return img;
    }
    let w: usize = img.width as usize;
    let h: usize = img.height as usize;
    let n: usize = img.data.len();
    let (ow, oh): (usize, usize) = if orientation >= 5 {
        (h, w)
    } else {
        (w, h)
    };
    assert(w * h == h * w) by (nonlinear_arith);
    let mut data: Vec<u8> = Vec::with_capacity(n);
    let mut y: usize = 0;
    assert(0 * ow == 0) by (nonlinear_arith);
    while y < oh
        invariant
            y <= oh,
            2 <= orientation <= 8,
            w == img.width,
            h == img.height,
            n == img.data@.len(),
            n == 4 * (w * h),
            w * h == h * w,
            (ow, oh) == (if orientation >= 5 {
                (h, w)
            } else {
                (w, h)
            }),
            data@.len() == 4 * (y * ow),
            rows_done(img, orientation, data@, ow as int, y as int),
        decreases oh - y,
    {
        let mut x: usize = 0;
        while x < ow
            invariant
                x <= ow,
                y < oh,
                2 <= orientation <= 8,
                w == img.width,
                h == img.height,
                n == img.data@.len(),
                n == 4 * (w * h),
                w * h == h * w,
                (ow, oh) == (if orientation >= 5 {
                    (h, w)
                } else {
                    (w, h)
                }),
                data@.len() == 4 * (y * ow + x),
                rows_done(img, orientation, data@, ow as int, y as int),
                row_done(img, orientation, data@, ow as int, y as int, x as int),
            decreases ow - x,
        {
            let (sx, sy): (usize, usize) = match orientation {
                2 => (w - 1 - x, y),
                3 => (w - 1 - x, h - 1 - y),
                4 => (x, h - 1 - y),
                5 => (y, x),
                6 => (y, h - 1 - x),
                7 => (w - 1 - y, h - 1 - x),
                _ => (w - 1 - y, x),
            };
            proof {
                lemma_index(w as int, h as int, sx as int, sy as int);
            }
            let i: usize = 4 * (sy * w + sx);
            let ghost before = data@;
            data.push(img.data[i]);
            data.push(img.data[i + 1]);
            data.push(img.data[i + 2]);
            data.push(img.data[i + 3]);
            proof {
                let at = 4 * (y * ow + x);
                assert(data@.subrange(at, at + 4) =~= img.pixel(sx as int, sy as int));
                assert(data@.take(before.len() as int) =~= before);
                lemma_pixels_kept(img, orientation, before, data@, ow as int, y as int, x as int);
            }
            x += 1;
        }
        y += 1;
        assert(y * ow == (y - 1) * ow + ow) by (nonlinear_arith);
        assert(rows_done(img, orientation, data@, ow as int, y as int)) by {
            assert forall|a: int, b: int| 0 <= a < ow && 0 <= b < y implies #[trigger] placed(
                img,
                orientation,
                data@,
                ow as int,
                a,
                b,
            ) by {
                if b == y - 1 {
                    assert(placed(img, orientation, data@, ow as int, a, y - 1));
                }
            }
        }
    }
    let out = Rgba { width: ow as u32, height: oh as u32, data };
    proof {
        assert(oh * ow == ow * oh) by (nonlinear_arith);
        assert forall|a: int, b: int| 0 <= a < out.width && 0 <= b < out.height implies #[trigger] out.pixel(
        a, b) == ({
            let s = source(orientation, img.width as int, img.height as int, a, b);
            img.pixel(s.0, s.1)
        }) by {
            assert(placed(img, orientation, data@, ow as int, a, b));
        }
    }
    out
}

/// The pixel of column `x`, row `y` stands in its place in `data`.
spec fn placed(img: Rgba, orientation: u32, data: Seq<u8>, ow: int, x: int, y: int) -> bool {
    let s = source(orientation, img.width as int, img.height as int, x, y);
    data.subrange(4 * (y * ow + x), 4 * (y * ow + x) + 4) == img.pixel(s.0, s.1)
}

spec fn rows_done(img: Rgba, orientation: u32, data: Seq<u8>, ow: int, rows: int) -> bool {
    forall|x: int, y: int|
        0 <= x < ow && 0 <= y < rows ==> #[trigger] placed(img, orientation, data, ow, x, y)
}

spec fn row_done(img: Rgba, orientation: u32, data: Seq<u8>, ow: int, y: int, cols: int) -> bool {
    forall|x: int| 0 <= x < cols ==> #[trigger] placed(img, orientation, data, ow, x, y)
}

/// Appending a pixel keeps those before it.
proof fn lemma_pixels_kept(
    img: Rgba,
    orientation: u32,
    before: Seq<u8>,
    after: Seq<u8>,
    ow: int,
    y: int,
    x: int,
)
    requires
        0 <= x < ow,
        0 <= y,
        before.len() == 4 * (y * ow + x),
        after.len() == before.len() + 4,
        after.take(before.len() as int) == before,
        rows_done(img, orientation, before, ow, y),
        row_done(img, orientation, before, ow, y, x),
        placed(img, orientation, after, ow, x, y),
    ensures
        rows_done(img, orientation, after, ow, y),
        row_done(img, orientation, after, ow, y, x + 1),
{
    assert forall|a: int, b: int| 0 <= a < ow && 0 <= b < y implies #[trigger] placed(
        img,
        orientation,
        after,
        ow,
        a,
        b,
    ) by {
        assert(placed(img, orientation, before, ow, a, b));
        assert(0 <= b * ow + a && b * ow + a + 1 <= y * ow) by (nonlinear_arith)
            requires
                0 <= a < ow,
                0 <= b < y,
        ;
        let at = 4 * (b * ow + a);
        assert(after.subrange(at, at + 4) =~= after.take(before.len() as int).subrange(at, at + 4));
    }
    assert forall|a: int| 0 <= a < x + 1 implies #[trigger] placed(img, orientation, after, ow, a, y) by {
        if a < x {
            assert(placed(img, orientation, before, ow, a, y));
            assert(0 <= y * ow) by (nonlinear_arith)
                requires
                    0 < ow,
                    0 <= y,
            ;
            let at = 4 * (y * ow + a);
            assert(after.subrange(at, at + 4) =~= after.take(before.len() as int).subrange(
                at,
                at + 4,
            ));
        }
    }
}

/// The image resizer of `fast_image_resize`, which keeps its working memory between images.
#[verifier::external_type_specification]
#[verifier::external_body]
pub struct ExResizer(Resizer);

/// Whether the resizer may make the pixels `out` of the pixels `data`, which have the size `from`,
/// when it is asked for the size `to`.
pub uninterp spec fn may_resize(
    data: Seq<u8>,
    from: (u32, u32),
    to: (u32, u32),
    out: Seq<u8>,
) -> bool;

/// `out` is what the resizer may make of `img` for the given size. An image that has that size
/// already is copied.
pub open spec fn is_resized(img: Rgba, size: (u32, u32), out: Rgba) -> bool {
    &&& (out.width, out.height) == size
    &&& out.packed()
    &&& size == (img.width, img.height) ==> out.data@ == img.data@
    &&& size != (img.width, img.height) ==> may_resize(
        img.data@,
        (img.width, img.height),
        size,
        out.data@,
    )
}

/// `fast_image_resize::Resizer::resize` with the Lanczos filter: gives an image of the size that was
/// asked for, made of the pixels that were handed over, and a copy where the size stays the same.
/// Which values the pixels have is not stated otherwise: the filter's weights are computed in
/// floating point, with a precision that is the platform's, so that two machines may differ.
#[verifier::external_body]
fn resize_to(resizer: &mut Resizer, img: &Rgba, dw: u32, dh: u32) -> (r: Rgba)
    requires
        img.packed(),
        1 <= dw <= img.width,
        1 <= dh <= img.height,
    ensures
        is_resized(*img, (dw, dh), r),
        may_resize(img.data@, (img.width, img.height), (dw, dh), r.data@),
{
    let src = ImageRef::new(img.width, img.height, &img.data, PixelType::U8x4).expect("image buffer");
    let mut dst = Image::new(dw, dh, PixelType::U8x4);
    let options = ResizeOptions::new()
        .resize_alg(ResizeAlg::Convolution(FilterType::Lanczos3))
        .use_alpha(false);
    resizer.resize(&src, &mut dst, &options).expect("resize");
    Rgba { width: dw, height: dh, data: dst.into_vec() }
}

/// The size that a JPEG file's headers give, where they can be read and neither side is longer than
/// `max_side`.
pub uninterp spec fn jpeg_size(bytes: Seq<u8>, max_side: usize) -> Option<(usize, usize)>;

/// `zune_jpeg::JpegDecoder::decode_headers` and `dimensions`: the size that the headers give, or
/// nothing where they are refused. It depends on the file's bytes and on the limit alone. Sides are
/// 16-bit numbers other than zero.
#[verifier::external_body]
fn read_size(bytes: &[u8], max_side: usize) -> (r: Option<(usize, usize)>)
    ensures
        r == jpeg_size(bytes@, max_side),
        r matches Some((w, h)) ==> 1 <= w < 0x1_0000 && 1 <= h < 0x1_0000,
{
    let options = DecoderOptions::default()
        .jpeg_set_out_colorspace(ColorSpace::RGBA)
        .set_max_width(max_side)
        .set_max_height(max_side);
    let mut decoder = JpegDecoder::new_with_options(ZCursor::new(bytes), options);
    decoder.decode_headers().ok()?;
    decoder.dimensions()
}

/// The pixels of a JPEG file in RGBA, row by row, or the decoder's complaint about it.
pub uninterp spec fn jpeg_pixels(bytes: Seq<u8>, max_side: usize) -> Result<Seq<u8>, Seq<char>>;

/// `zune_jpeg::JpegDecoder::decode` and `dimensions`: the pixels of the file in RGBA and their size,
/// which is that of the headers, or the decoder's complaint. Both depend on the file's bytes and on
/// the limit alone: the decoder works on integers, and its vector instructions compute what its
/// plain code does. There are four bytes for every pixel, which have to fit in a vector. Once the
/// headers are read, the decoder gets through a frame that `frame_ok` passes; its arithmetic wraps, as
/// it does in a build without overflow checks.
#[verifier::external_body]
fn decode_jpeg(bytes: &[u8], max_side: usize) -> (r: Result<
    (Vec<u8>, Option<(usize, usize)>),
    String,
>)
    requires
        jpeg_size(bytes@, max_side) matches Some((w, h)) ==> frame_ok(bytes@) && pixel_bytes(
            w as int,
            h as int,
        ) <= isize::MAX,
    ensures
        r matches Err(e) ==> jpeg_pixels(bytes@, max_side).err() == Some(e@),
        r matches Ok((data, size)) ==> jpeg_pixels(bytes@, max_side).ok() == Some(data@) && size
            == jpeg_size(bytes@, max_side) && (size matches Some((w, h)) && data@.len()
            == pixel_bytes(w as int, h as int)),
{
    let options = DecoderOptions::default()
        .jpeg_set_out_colorspace(ColorSpace::RGBA)
        .set_max_width(max_side)
        .set_max_height(max_side);
    let mut decoder = JpegDecoder::new_with_options(ZCursor::new(bytes), options);
    let data = decoder.decode().map_err(|e| e.to_string())?;
    Ok((data, decoder.dimensions()))
}

/// The longest side of an image that is decoded.
pub const MAX_SIDE: usize = 0x1_0000;

/// An image is decoded from the file `bytes`: it has the size that the headers give, and the pixels
/// of the file.
pub open spec fn is_decoded(bytes: Seq<u8>, img: Rgba) -> bool {
    &&& jpeg_pixels(bytes, MAX_SIDE).ok() == Some(img.data@)
    &&& img.packed()
    &&& img.width >= 1
    &&& img.height >= 1
    &&& jpeg_size(bytes, MAX_SIDE) == Some((img.width as usize, img.height as usize))
}

/// Why a JPEG file cannot be decoded, if it cannot.
pub open spec fn decode_error(bytes: Seq<u8>) -> Option<Seq<char>> {
    match (jpeg_size(bytes, MAX_SIDE), jpeg_pixels(bytes, MAX_SIDE)) {
        (Some((w, h)), pixels) => if pixel_bytes(w as int, h as int) > isize::MAX {
            Some("too large for this machine"@)
        } else if !frame_ok(bytes) {
            Some("unsupported frame"@)
        } else {
            pixels.err()
        },
        (None, pixels) => pixels.err(),
    }
}

/// Decodes a JPEG file: its pixels as they are stored, its orientation and its EXIF data.
pub fn decode(bytes: &[u8]) -> (r: Result<(Rgba, u32, Option<ExifData>), String>)
    ensures
        match r {
            Ok((img, o, exif)) => {
                &&& decode_error(bytes@) is None
                &&& is_decoded(bytes@, img)
                &&& exif_view(exif) == exif_of(bytes@)
                &&& o == orientation_of(exif_of(bytes@))
            },
            Err(e) => decode_error(bytes@) == Some(e@),
        },
{
    let exif = ExifData::read(bytes);
    let o: u32 = orientation(&exif);
    match read_size(bytes, MAX_SIDE) {
        Some((w, h)) => {
            assert(w * h <= 0xffff * 0xffff) by (nonlinear_arith)
                requires
                    w < 0x1_0000,
                    h < 0x1_0000,
            ;
            if 4 * (w as u64 * h as u64) > isize::MAX as u64 {
                return Err("too large for this machine".to_owned());
            }
            if !frame_decodes(bytes) {
                return Err("unsupported frame".to_owned());
            }
        },
        None => {},
    }
    match decode_jpeg(bytes, MAX_SIDE) {
        Err(e) => Err(e),
        Ok((data, None)) => Err("no dimensions".to_owned()),
        Ok((data, Some((w, h)))) => {
            Ok((Rgba { width: w as u32, height: h as u32, data }, o, exif))
        },
    }
}

/// The size, before orientation, of an image that fits in `max_w` by `max_h` once oriented.
pub open spec fn size_within(w: u32, h: u32, orientation: u32, max_w: u32, max_h: u32) -> (u32, u32) {
    let (ow, oh) = oriented(w, h, orientation);
    let (fw, fh) = fit_of(ow as int, oh as int, max_w as int, max_h as int);
    oriented(fw as u32, fh as u32, orientation)
}

/// Downscale an un-oriented image so that, once oriented, it fits in `max_w`x`max_h`.
fn resize_within(resizer: &mut Resizer, img: Rgba, orientation: u32, max_w: u32, max_h: u32) -> (r:
    Rgba)
    requires
        img.packed(),
        img.width >= 1,
        img.height >= 1,
    ensures
        is_resized(img, size_within(img.width, img.height, orientation, max_w, max_h), r),
        1 <= r.width,
        1 <= r.height,
{
    let (ow, oh) = oriented_dims(img.width, img.height, orientation);
    let (fw, fh) = fit_within(ow, oh, max_w, max_h);
    proof {
        law_fits(ow as int, oh as int, max_w as int, max_h as int);
        law_never_upscales(ow as int, oh as int, max_w as int, max_h as int);
    }
    let (dw, dh) = oriented_dims(fw, fh, orientation);
    if dw == img.width && dh == img.height {
        return img;
    }
    resize_to(resizer, &img, dw, dh)
}

/// Whether a job became irrelevant: a screen-fit image too far from the cursor, or a full image of
/// another shot than the one that is peeked at.
pub open spec fn is_stale(kind: JobKind, idx: int, current: int, peeking: bool) -> bool {
    match kind {
        JobKind::Fit => idx - current > PREFETCH_WINDOW || current - idx > PREFETCH_WINDOW,
        JobKind::Full => idx != current || !peeking,
        JobKind::Thumb => false,
    }
}

/// Whether a job became irrelevant.
pub fn stale(kind: JobKind, idx: usize, current: usize, peeking: bool) -> (r: bool)
    ensures
        r == is_stale(kind, idx as int, current as int, peeking),
{
    match kind {
        JobKind::Fit => {
            let apart: usize = if idx >= current {
                idx - current
            } else {
                current - idx
            };
            apart > PREFETCH_WINDOW
        },
        JobKind::Full => idx != current || !peeking,
        JobKind::Thumb => false,
    }
}

/// What a job of the given kind makes of the decoded image `raw`. `shown` holds the exposure
/// settings for display.
pub open spec fn is_payload(
    kind: JobKind,
    raw: Rgba,
    orientation: u32,
    exif: Option<ExifView>,
    shown: Exposure,
    target: (u32, u32),
    p: Payload,
) -> bool {
    let full = oriented(raw.width, raw.height, orientation);
    match (kind, p) {
        (JobKind::Full, Payload::Full(img)) => is_oriented(raw, orientation, img),
        (JobKind::Fit, Payload::Fit { fit, thumb, full_width, full_height, meta }) => {
            &&& is_scaled(raw, orientation, target, fit)
            &&& is_resized(fit, thumb_size(fit), thumb)
            &&& (full_width, full_height) == full
            &&& meta@ == rows_of(exif, shown, full.0 as nat, full.1 as nat)
        },
        (JobKind::Thumb, Payload::Thumb(img)) => is_scaled(
            raw,
            orientation,
            (THUMB_PX, THUMB_PX),
            img,
        ),
        _ => false,
    }
}

/// `out` is `raw` scaled down to `max` and oriented.
pub open spec fn is_scaled(raw: Rgba, orientation: u32, max: (u32, u32), out: Rgba) -> bool {
    exists|small: Rgba|
        {
            &&& is_resized(raw, size_within(raw.width, raw.height, orientation, max.0, max.1), small)
            &&& #[trigger] is_oriented(small, orientation, out)
        }
}

/// The size of the thumbnail of an image.
pub open spec fn thumb_size(img: Rgba) -> (u32, u32) {
    let (w, h) = fit_of(img.width as int, img.height as int, THUMB_PX as int, THUMB_PX as int);
    (w as u32, h as u32)
}

/// Makes of a decoded image what a job of the given kind asks for.
pub fn finish_job(
    kind: JobKind,
    raw: Rgba,
    orientation: u32,
    exif: Option<&ExifData>,
    shown: &Exposure,
    target: (u32, u32),
    resizer: &mut Resizer,
) -> (r: Payload)
    requires
        raw.packed(),
        raw.width >= 1,
        raw.height >= 1,
    ensures
        is_payload(
            kind,
            raw,
            orientation,
            match exif {
                Some(e) => Some(e@),
                None => None,
            },
            *shown,
            target,
            r,
        ),
{
    let (ow, oh) = oriented_dims(raw.width, raw.height, orientation);
    match kind {
        JobKind::Full => Payload::Full(orient(raw, orientation)),
        JobKind::Fit => {
            let small = resize_within(resizer, raw, orientation, target.0, target.1);
            let fit = orient(small, orientation);
            assert(is_oriented(small, orientation, fit));
            let (tw, th) = fit_within(fit.width, fit.height, THUMB_PX, THUMB_PX);
            proof {
                law_fits(fit.width as int, fit.height as int, THUMB_PX as int, THUMB_PX as int);
                law_never_upscales(
                    fit.width as int,
                    fit.height as int,
                    THUMB_PX as int,
                    THUMB_PX as int,
                );
            }
            let thumb = resize_to(resizer, &fit, tw, th);
            let meta = Meta::from_exif(exif, shown, ow, oh);
            Payload::Fit { fit, thumb, full_width: ow, full_height: oh, meta }
        },
        JobKind::Thumb => {
            let small = resize_within(resizer, raw, orientation, THUMB_PX, THUMB_PX);
            let thumb = orient(small, orientation);
            assert(is_oriented(small, orientation, thumb));
            Payload::Thumb(thumb)
        },
    }
}

/// A complaint about a file.
pub open spec fn complaint(path: Seq<char>, e: Seq<char>) -> Seq<char> {
    path + ": "@ + e
}

fn complain(path: &str, e: &str) -> (r: String)
    ensures
        r@ == complaint(path@, e@),
{
    let mut out = path.to_owned();
    out.append(": ");
    out.append(e);
    out
}

/// What may come of a job on a file that holds `bytes`: a complaint that names the file if it cannot
/// be decoded, else what the job asks for, with the exposure settings as `expose` displays them.
pub open spec fn is_job_result<G: Fn(&ExifData) -> Exposure>(
    path: Seq<char>,
    bytes: Seq<u8>,
    kind: JobKind,
    target: (u32, u32),
    expose: G,
    r: Result<Payload, String>,
) -> bool {
    match r {
        Err(m) => decode_error(bytes) matches Some(e) && m@ == complaint(path, e),
        Ok(p) => decode_error(bytes) is None && exists|
            raw: Rgba,
            exif: Option<ExifData>,
            shown: Exposure,
        |
            {
                &&& is_decoded(bytes, raw)
                &&& exif_view(exif) == exif_of(bytes)
                &&& exif matches Some(e) ==> call_ensures(expose, (&e,), shown)
                &&& #[trigger] is_payload(
                    kind,
                    raw,
                    orientation_of(exif_of(bytes)),
                    exif_view(exif),
                    shown,
                    target,
                    p,
                )
            },
    }
}

/// Runs a job: reads the file with `read`, decodes it, and makes of it what the job asks for.
/// `current` and `peeking` tell what is on the screen, `target` is the size that images should fit
/// in, and `expose` displays exposure settings.
pub fn run_job<F: Fn(&str) -> Result<Vec<u8>, String>, G: Fn(&ExifData) -> Exposure>(
    path: &str,
    idx: usize,
    kind: JobKind,
    current: usize,
    peeking: bool,
    target: (u32, u32),
    read: F,
    expose: G,
    resizer: &mut Resizer,
) -> (r: Result<Payload, String>)
    requires
        call_requires(read, (path,)),
        forall|e: &ExifData| #[trigger] call_requires(expose, (e,)),
    ensures
        is_stale(kind, idx as int, current as int, peeking) <==> r matches Ok(Payload::Skipped),
        !is_stale(kind, idx as int, current as int, peeking) ==> exists|file: Result<Vec<u8>, String>|
         #[trigger]
            call_ensures(read, (path,), file) && match file {
                Err(e) => r matches Err(m) && m@ == complaint(path@, e@),
                Ok(bytes) => is_job_result(path@, bytes@, kind, target, expose, r),
            },
{
    if stale(kind, idx, current, peeking) {
        return Ok(Payload::Skipped);
    }
    let file = read(path);
    let bytes = match file {
        Ok(b) => b,
        Err(e) => {
            return Err(complain(path, e.as_str()));
        },
    };
    match decode(bytes.as_slice()) {
        Err(e) => {
            let m = complain(path, e.as_str());
            assert(m@ == complaint(path@, e@));
            assert(call_ensures(read, (path,), file));
            Err(m)
        },
        Ok((raw, o, exif)) => {
            let shown = match &exif {
                Some(e) => expose(e),
                None => Exposure {
                    focal_length: String::new(),
                    aperture: String::new(),
                    shutter: String::new(),
                    iso: String::new(),
                    bias: String::new(),
                },
            };
            let p = finish_job(kind, raw, o, exif.as_ref(), &shown, target, resizer);
            proof {
                assert(is_payload(kind, raw, o, exif_view(exif), shown, target, p));
                assert(call_ensures(read, (path,), file));
            }
            Ok(p)
        },
    }
}

/// How many worker threads to use where `available` can run at once, if that is known.
pub fn worker_count(available: Option<usize>) -> (r: usize)
    ensures
        match available {
            None => r == 2,
            Some(n) => r == (if n <= 2 {
                1
            } else if n >= 9 {
                8
            } else {
                n - 1
            }),
        },
{
    match available {
        None => 2,
        Some(n) => {
            if n <= 2 {
                1
            } else if n >= 9 {
                8
            } else {
                n - 1
            }
        },
    }
}

/// The larger of two lengths, and never less than one pixel.
pub open spec fn longer(a: int, b: int) -> int {
    at_least_one(
        if a < b {
            b
        } else {
            a
        },
    )
}

fn longer_side(a: u32, b: u32) -> (r: u32)
    ensures
        r == longer(a as int, b as int),
{
    let m: u32 = if a < b {
        b
    } else {
        a
    };
    if m < 1 {
        1
    } else {
        m
    }
}

/// The size that screen-fit images are made for: that of the monitor, so that they stay sharp in full
/// screen, or of the window where it is larger or no monitor is known. Never less than one pixel.
pub fn target_size(window: (u32, u32), monitor: Option<(u32, u32)>) -> (r: (u32, u32))
    ensures
        ({
            let m = match monitor {
                Some(m) => m,
                None => (0u32, 0u32),
            };
            r.0 == longer(window.0 as int, m.0 as int) && r.1 == longer(
                window.1 as int,
                m.1 as int,
            )
        }),
{
    let (w, h): (u32, u32) = match monitor {
        Some(m) => m,
        None => (0, 0),
    };
    (longer_side(window.0, w), longer_side(window.1, h))
}

/// The orientation that undoes another.
pub open spec fn inverse(orientation: u32) -> u32 {
    if orientation == 6 {
        8
    } else if orientation == 8 {
        6
    } else {
        orientation
    }
}

/// Orienting and then applying the inverse orientation gives the image back.
pub proof fn law_orientation_undone(img: Rgba, orientation: u32, turned: Rgba, back: Rgba)
    requires
        img.packed(),
        is_oriented(img, orientation, turned),
        is_oriented(turned, inverse(orientation), back),
    ensures
        back.same(img),
{
    let w = img.width as int;
    let h = img.height as int;
    assert(back.width == img.width && back.height == img.height);
    assert forall|x: int, y: int| 0 <= x < w && 0 <= y < h implies #[trigger] back.pixel(x, y)
        == img.pixel(x, y) by {
        let s = source(inverse(orientation), turned.width as int, turned.height as int, x, y);
        assert(0 <= s.0 < turned.width && 0 <= s.1 < turned.height);
        assert(turned.pixel(s.0, s.1) == back.pixel(x, y));
    }
    lemma_same_pixels(img, back);
}

/// Images of one size with the same pixels have the same bytes.
proof fn lemma_same_pixels(a: Rgba, b: Rgba)
    requires
        a.packed(),
        b.packed(),
        a.width == b.width,
        a.height == b.height,
        forall|x: int, y: int|
            0 <= x < a.width && 0 <= y < a.height ==> #[trigger] b.pixel(x, y) == a.pixel(x, y),
    ensures
        a.data@ == b.data@,
{
    let w = a.width as int;
    let h = a.height as int;
    assert forall|i: int| 0 <= i < a.data@.len() implies a.data@[i] == b.data@[i] by {
        let p = i / 4;
        let c = i % 4;
        assert(w > 0) by (nonlinear_arith)
            requires
                0 <= i < 4 * (w * h),
                w >= 0,
                h >= 0,
        ;
        let y = p / w;
        let x = p % w;
        assert(p == y * w + x && 0 <= x < w && 0 <= y < h) by (nonlinear_arith)
            requires
                w > 0,
                0 <= p,
                p < w * h,
                y == p / w,
                x == p % w,
        ;
        assert(b.pixel(x, y) == a.pixel(x, y));
        assert(a.pixel(x, y)[c] == a.data@[4 * p + c]);
        assert(b.pixel(x, y)[c] == b.data@[4 * p + c]);
    }
    assert(a.data@ =~= b.data@);
}

/// What is scaled to fit a screen fits it once it is oriented, and is no larger than the image.
pub proof fn law_scaled_image_fits(raw: Rgba, orientation: u32, max: (u32, u32), out: Rgba)
    requires
        raw.width >= 1,
        raw.height >= 1,
        is_scaled(raw, orientation, max, out),
    ensures
        1 <= out.width <= at_least_one(max.0 as int),
        1 <= out.height <= at_least_one(max.1 as int),
        out.width <= oriented(raw.width, raw.height, orientation).0,
        out.height <= oriented(raw.width, raw.height, orientation).1,
{
    let (ow, oh) = oriented(raw.width, raw.height, orientation);
    law_fits(ow as int, oh as int, max.0 as int, max.1 as int);
    law_never_upscales(ow as int, oh as int, max.0 as int, max.1 as int);
}

/// An image that fits already is oriented and otherwise left as it is.
pub proof fn law_small_image_only_oriented(raw: Rgba, orientation: u32, max: (u32, u32), out: Rgba)
    requires
        raw.packed(),
        1 <= oriented(raw.width, raw.height, orientation).0 <= max.0,
        1 <= oriented(raw.width, raw.height, orientation).1 <= max.1,
        is_scaled(raw, orientation, max, out),
    ensures
        is_oriented(raw, orientation, out),
{
    let (ow, oh) = oriented(raw.width, raw.height, orientation);
    crate::scale::law_fitting_image_keeps_size(ow as int, oh as int, max.0 as int, max.1 as int);
    let small = choose|small: Rgba|
        {
            &&& is_resized(raw, size_within(raw.width, raw.height, orientation, max.0, max.1), small)
            &&& #[trigger] is_oriented(small, orientation, out)
        };
    assert(small.data@ == raw.data@);
    assert forall|x: int, y: int| small.pixel(x, y) == raw.pixel(x, y) by {}
}

/// Where each orientation puts a pixel: mirrored, turned round or upside down, and for 5 to 8 with
/// rows and columns exchanged; 6 turns clockwise and 8 the other way. Other numbers change nothing.
pub proof fn law_where_pixels_go(img: Rgba, orientation: u32, out: Rgba, x: int, y: int)
    requires
        is_oriented(img, orientation, out),
        0 <= x < img.width,
        0 <= y < img.height,
    ensures
        ({
            let w = img.width as int;
            let h = img.height as int;
            let p = img.pixel(x, y);
            &&& orientation == 2 ==> out.pixel(w - 1 - x, y) == p
            &&& orientation == 3 ==> out.pixel(w - 1 - x, h - 1 - y) == p
            &&& orientation == 4 ==> out.pixel(x, h - 1 - y) == p
            &&& orientation == 5 ==> out.pixel(y, x) == p
            &&& orientation == 6 ==> out.pixel(h - 1 - y, x) == p
            &&& orientation == 7 ==> out.pixel(h - 1 - y, w - 1 - x) == p
            &&& orientation == 8 ==> out.pixel(y, w - 1 - x) == p
            &&& orientation <= 1 || orientation > 8 ==> out.pixel(x, y) == p
            &&& 5 <= orientation <= 8 ==> out.width == h && out.height == w
            &&& orientation < 5 || orientation > 8 ==> out.width == w && out.height == h
            &&& out.data@.len() == 4 * (w * h)
        }),
{
    let w = img.width as int;
    let h = img.height as int;
    assert(w * h == h * w) by (nonlinear_arith);
    let q = if orientation == 2 {
        out.pixel(w - 1 - x, y)
    } else if orientation == 3 {
        out.pixel(w - 1 - x, h - 1 - y)
    } else if orientation == 4 {
        out.pixel(x, h - 1 - y)
    } else if orientation == 5 {
        out.pixel(y, x)
    } else if orientation == 6 {
        out.pixel(h - 1 - y, x)
    } else if orientation == 7 {
        out.pixel(h - 1 - y, w - 1 - x)
    } else if orientation == 8 {
        out.pixel(y, w - 1 - x)
    } else {
        out.pixel(x, y)
    };
    assert(q == img.pixel(x, y));
}

/// A pixel is four bytes, and the pixels stand row by row.
pub proof fn law_bytes_of_a_pixel(img: Rgba, x: int, y: int, c: int)
    requires
        img.packed(),
        0 <= x < img.width,
        0 <= y < img.height,
        0 <= c < 4,
    ensures
        img.pixel(x, y).len() == 4,
        img.pixel(x, y)[c] == img.data@[4 * (y * img.width + x) + c],
{
    lemma_index(img.width as int, img.height as int, x, y);
}

/// A screen-fit image is worth decoding up to four shots from the cursor, a full one only of the shot
/// that is peeked at, and a thumbnail always.
pub proof fn law_what_is_worth_decoding(idx: int, current: int, peeking: bool)
    ensures
        is_stale(JobKind::Fit, idx, current, peeking) <==> idx > current + 4 || idx < current - 4,
        is_stale(JobKind::Full, idx, current, peeking) <==> !(peeking && idx == current),
        !is_stale(JobKind::Thumb, idx, current, peeking),
{
}

/// What comes of a job is of its kind: the full image as it is, upright; an image that fits the
/// screen, with its thumbnail and the metadata of the full size; or a thumbnail alone. Thumbnails
/// are no longer than 360 pixels.
pub proof fn law_results_of_jobs(
    kind: JobKind,
    raw: Rgba,
    orientation: u32,
    exif: Option<ExifView>,
    shown: Exposure,
    target: (u32, u32),
    p: Payload,
)
    requires
        raw.width >= 1,
        raw.height >= 1,
        is_payload(kind, raw, orientation, exif, shown, target, p),
    ensures
        ({
            let turned = 5 <= orientation <= 8;
            let w = if turned {
                raw.height
            } else {
                raw.width
            };
            let h = if turned {
                raw.width
            } else {
                raw.height
            };
            &&& kind == JobKind::Full ==> (p matches Payload::Full(img) && img.width == w && img.height
                == h && is_oriented(raw, orientation, img))
            &&& kind == JobKind::Fit ==> (p matches Payload::Fit {
                fit,
                thumb,
                full_width,
                full_height,
                meta,
            } && full_width == w && full_height == h && meta@ == rows_of(
                exif,
                shown,
                w as nat,
                h as nat,
            ) && fit.width <= at_least_one(target.0 as int) && fit.height <= at_least_one(
                target.1 as int,
            ) && 1 <= thumb.width <= 360 && 1 <= thumb.height <= 360 && thumb.width <= fit.width
                && thumb.height <= fit.height && is_scaled(raw, orientation, target, fit))
            &&& kind == JobKind::Thumb ==> (p matches Payload::Thumb(img) && 1 <= img.width <= 360 && 1
                <= img.height <= 360 && img.width <= w && img.height <= h && is_scaled(
                raw,
                orientation,
                (360, 360),
                img,
            ))
        }),
{
    match p {
        Payload::Fit { fit, thumb, full_width, full_height, meta } => {
            if kind == JobKind::Fit {
                law_scaled_image_fits(raw, orientation, target, fit);
                law_fits(fit.width as int, fit.height as int, 360, 360);
                law_never_upscales(fit.width as int, fit.height as int, 360, 360);
            }
        },
        Payload::Thumb(img) => {
            if kind == JobKind::Thumb {
                law_scaled_image_fits(raw, orientation, (360, 360), img);
            }
        },
        _ => {},
    }
}

/// A complaint names the file before the error.
pub proof fn law_complaints(path: Seq<char>, e: Seq<char>)
    ensures
        complaint(path, e) == path + ": "@ + e,
{
}

/// A file is decoded, with sides up to 65536, where the decoder can get through it; else its
/// complaint, or what this library knows of the file, is the error.
pub proof fn law_why_files_are_refused(bytes: Seq<u8>, w: usize, h: usize)
    ensures
        jpeg_size(bytes, 65536) is None ==> decode_error(bytes) == jpeg_pixels(bytes, 65536).err(),
        jpeg_size(bytes, 65536) == Some((w, h)) && 4 * (w * h) > isize::MAX ==> decode_error(bytes)
            == Some("too large for this machine"@),
        jpeg_size(bytes, 65536) == Some((w, h)) && 4 * (w * h) <= isize::MAX && !frame_ok(bytes)
            ==> decode_error(bytes) == Some("unsupported frame"@),
        jpeg_size(bytes, 65536) == Some((w, h)) && 4 * (w * h) <= isize::MAX && frame_ok(bytes)
            ==> decode_error(bytes) == jpeg_pixels(bytes, 65536).err(),
{
}

/// A decoded image has the size of the headers and the pixels of the file.
pub proof fn law_decoded_image(bytes: Seq<u8>, img: Rgba)
    requires
        is_decoded(bytes, img),
    ensures
        jpeg_size(bytes, 65536) == Some((img.width as usize, img.height as usize)),
        jpeg_pixels(bytes, 65536) == Ok::<Seq<u8>, Seq<char>>(img.data@),
        img.data@.len() == 4 * (img.width * img.height),
        img.width >= 1 && img.height >= 1,
{
}

/// The longer of two lengths is one of them and no shorter than either, and at least a pixel.
pub proof fn law_longer(a: int, b: int)
    requires
        a >= 0,
        b >= 0,
    ensures
        longer(a, b) >= a && longer(a, b) >= b && longer(a, b) >= 1,
        a > 0 || b > 0 ==> longer(a, b) == a || longer(a, b) == b,
        a == 0 && b == 0 ==> longer(a, b) == 1,
{
}

/// A resized image has the size that was asked for, and one of that size already keeps its bytes.
pub proof fn law_resized(img: Rgba, size: (u32, u32), out: Rgba)
    requires
        is_resized(img, size, out),
    ensures
        out.width == size.0 && out.height == size.1,
        out.data@.len() == 4 * (out.width * out.height),
        img.width == size.0 && img.height == size.1 ==> out.data@ == img.data@,
{
}

/// An image is scaled for the way it is shown: one that orientation turns is fitted with its sides
/// exchanged. A thumbnail fits in 360 by 360.
pub proof fn law_size_before_orientation(w: u32, h: u32, orientation: u32, max_w: u32, max_h: u32, img: Rgba)
    requires
        w >= 1,
        h >= 1,
    ensures
        ({
            let (a, b) = size_within(w, h, orientation, max_w, max_h);
            let straight = fit_of(w as int, h as int, max_w as int, max_h as int);
            let turned = fit_of(h as int, w as int, max_w as int, max_h as int);
            &&& orientation < 5 || orientation > 8 ==> a == straight.0 && b == straight.1
            &&& 5 <= orientation <= 8 ==> b == turned.0 && a == turned.1
        }),
        thumb_size(img).0 == fit_of(img.width as int, img.height as int, 360, 360).0,
        thumb_size(img).1 == fit_of(img.width as int, img.height as int, 360, 360).1,
{
    law_fits(w as int, h as int, max_w as int, max_h as int);
    law_fits(h as int, w as int, max_w as int, max_h as int);
    law_fits(img.width as int, img.height as int, 360, 360);
}

/// Scaling comes before orientation, and both are done: what is shown is the oriented form of an image
/// of the size that fits.
pub proof fn law_scaled_and_oriented(raw: Rgba, orientation: u32, max: (u32, u32), small: Rgba, out: Rgba)
    requires
        is_resized(raw, size_within(raw.width, raw.height, orientation, max.0, max.1), small),
        is_oriented(small, orientation, out),
    ensures
        is_scaled(raw, orientation, max, out),
{
}

} // verus!
