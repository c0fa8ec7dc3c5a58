//! Hiding one image inside another.
//!
//! An image comes in as it was decoded, in one of the layouts of 8-bit
//! samples that image files use, and is brought to 8-bit RGBA pixels, row
//! after row, four bytes per pixel, the way the image crate converts it.  A secret image is hidden in a cover image by keeping the high
//! four bits of each red, green and blue byte of the cover and putting the
//! high four bits of the secret's byte in their place at the bottom; the
//! alpha byte of the cover stays.  Revealing moves the low four bits of each
//! colour byte back to the top and makes every pixel opaque.  Arbitrary
//! bytes can also ride in the alpha bytes of a cover, one byte per pixel.
use vstd::prelude::*;
use image::ImageBuffer;
use image::ImageOutputFormat::PNG;
use image::FilterType::{Lanczos3, Nearest};
use crate::stego::PixelLayout::{Bgr, Bgra, Luma, LumaAlpha, Rgb, Rgba};
use image::DynamicImage::{ImageBgr8, ImageBgra8, ImageLuma8, ImageLumaA8, ImageRgb8, ImageRgba8};

verus! {

/// An image of 8-bit RGBA pixels, stored row after row.
pub struct RgbaImage {
    width: u32,
    height: u32,
    pixels: Vec<u8>,
}

/// The interpolation used when an image is scaled.
#[derive(PartialEq, Eq, Structural, Clone, Copy)]
pub enum ResizeFilter {
    /// Each new pixel takes the value of the nearest old one.
    Nearest,
    /// Windowed sinc interpolation over three lobes.
    Lanczos3,
}

impl RgbaImage {
    #[verifier::type_invariant]
    spec fn well_formed(self) -> bool {
        self.pixels@.len() == 4 * self.width * self.height
    }

    /// The number of pixels in a row.
    pub closed spec fn spec_width(&self) -> u32 {
        self.width
    }

    /// The number of rows.
    pub closed spec fn spec_height(&self) -> u32 {
        self.height
    }

    /// The bytes of the pixels, row after row, red, green, blue and alpha.
    pub closed spec fn spec_pixels(&self) -> Seq<u8> {
        self.pixels@
    }

    /// The image of the given size whose pixel bytes are `pixels`, if their
    /// number is four per pixel.
    pub fn from_raw(width: u32, height: u32, pixels: Vec<u8>) -> (r: Option<Self>)
        ensures
            r is Some <==> pixels@.len() == 4 * width * height,
            r matches Some(img) ==> img.spec_width() == width && img.spec_height() == height
                && img.spec_pixels() == pixels@,
    {
        assert((width as u128) * (height as u128) <= 0xffff_ffff_ffff_ffffu128) by (nonlinear_arith)
            requires
                width <= 0xffff_ffffu32,
                height <= 0xffff_ffffu32,
        ;
        let area: u128 = (width as u128) * (height as u128);
        let wanted: u128 = 4u128 * area;
        assert(wanted == 4 * width * height) by (nonlinear_arith)
            requires
                area == width * height,
                wanted == 4 * area,
        ;
        if (pixels.len() as u128) == wanted {
            Some(RgbaImage { width, height, pixels })
        } else {
            None
        }
    }

    /// The number of pixels in a row.
    pub fn width(&self) -> (r: u32)
        ensures
            r == self.spec_width(),
    {
        self.width
    }

    /// The number of rows.
    pub fn height(&self) -> (r: u32)
        ensures
            r == self.spec_height(),
    {
        self.height
    }

    /// The bytes of the pixels, row after row.
    pub fn as_bytes(&self) -> (r: &[u8])
        ensures
            r@ == self.spec_pixels(),
            r@.len() == 4 * self.spec_width() * self.spec_height(),
    {
        proof {
            use_type_invariant(self);
        }
        self.pixels.as_slice()
    }

    /// The bytes of the pixels, row after row.
    pub fn into_raw(self) -> (r: Vec<u8>)
        ensures
            r@ == self.spec_pixels(),
    {
        self.pixels
    }
}

/// A cover byte with the high four bits of a secret byte hidden in its low
/// four bits.
pub open spec fn hide_nibble(cover: u8, secret: u8) -> u8 {
    ((cover / 16) * 16 + secret / 16) as u8
}

/// The byte whose high four bits are the low four bits of `p`.
pub open spec fn reveal_nibble(p: u8) -> u8 {
    ((p % 16) * 16) as u8
}

/// The pixel bytes of `cover` with the colour bytes of `secret` hidden in
/// them; alpha bytes are those of the cover.
pub open spec fn embedded(cover: Seq<u8>, secret: Seq<u8>) -> Seq<u8> {
    Seq::new(
        cover.len(),
        |i: int|
            if i % 4 == 3 {
                cover[i]
            } else {
                hide_nibble(cover[i], secret[i])
            },
    )
}

/// The pixel bytes that revealing the image hidden in `pixels` gives: each
/// colour byte's low four bits moved to the top, every pixel opaque.
pub open spec fn extracted(pixels: Seq<u8>) -> Seq<u8> {
    Seq::new(pixels.len(), |i: int| if i % 4 == 3 { 255u8 } else { reveal_nibble(pixels[i]) })
}

/// The pixel bytes `pixels` with the alpha byte of pixel `k` replaced by
/// `bytes[k]` for each `k` below the length of `bytes`.
pub open spec fn alpha_filled(pixels: Seq<u8>, bytes: Seq<u8>) -> Seq<u8> {
    Seq::new(
        pixels.len(),
        |i: int|
            if i % 4 == 3 && i / 4 < bytes.len() {
                bytes[i / 4]
            } else {
                pixels[i]
            },
    )
}

/// Whether scaling an image of `width` by `height` pixels to `new_width` by
/// `new_height` pixels fails: a source without pixels has nothing to take
/// the new pixels from, which matters where new pixels are computed.
pub open spec fn scaling_fails(width: u32, height: u32, new_width: u32, new_height: u32) -> bool {
    new_height > 0 && ((height == 0 && width > 0) || (width == 0 && new_width > 0))
}

/// The samples of the image of the given layout and size with samples
/// `samples`, scaled to `new_width` by `new_height` pixels with `filter`;
/// the layout stays.
pub uninterp spec fn resized_samples(
    layout: PixelLayout,
    width: u32,
    height: u32,
    samples: Seq<u8>,
    new_width: u32,
    new_height: u32,
    filter: ResizeFilter,
) -> Seq<u8>;

/// Byte `c` (red, green, blue, alpha) of RGBA pixel `p` converted from the
/// samples `s` of the given layout: grey goes to each colour, a missing
/// alpha is opaque, and blue-first layouts are turned around.
pub open spec fn rgba_sample(layout: PixelLayout, s: Seq<u8>, p: int, c: int) -> u8 {
    match layout {
        PixelLayout::Luma => if c == 3 { 255u8 } else { s[p] },
        PixelLayout::LumaAlpha => if c == 3 { s[2 * p + 1] } else { s[2 * p] },
        PixelLayout::Rgb => if c == 3 { 255u8 } else { s[3 * p + c] },
        PixelLayout::Rgba => s[4 * p + c],
        PixelLayout::Bgr => if c == 3 { 255u8 } else { s[3 * p + 2 - c] },
        PixelLayout::Bgra => if c == 3 { s[4 * p + 3] } else { s[4 * p + 2 - c] },
    }
}

/// The RGBA pixel bytes of an image of the given layout and size with
/// samples `s`.
pub open spec fn rgba_samples(layout: PixelLayout, width: u32, height: u32, s: Seq<u8>) -> Seq<u8> {
    Seq::new((4 * width * height) as nat, |i: int| rgba_sample(layout, s, i / 4, i % 4))
}

/// Hides the high four bits of `secret` in the low four bits of `cover`.
pub fn hide_in_byte(cover: u8, secret: u8) -> (r: u8)
    ensures
        r == hide_nibble(cover, secret),
{
    assert((cover & 0xf0u8) | (secret >> 4u8) == ((cover / 16) * 16 + secret / 16) as u8)
        by (bit_vector);
    (cover & 0xf0u8) | (secret >> 4u8)
}

/// Brings the low four bits of `p` back to the top.
pub fn reveal_from_byte(p: u8) -> (r: u8)
    ensures
        r == reveal_nibble(p),
{
    assert((p & 0x0fu8) << 4u8 == ((p % 16) * 16) as u8) by (bit_vector);
    (p & 0x0fu8) << 4u8
}

/// Hides `secret` in `cover`, which has the same size: each colour byte of
/// the cover keeps its high four bits and takes the high four bits of the
/// secret's byte as its low four bits; alpha bytes stay.
pub fn embed_image(cover: &RgbaImage, secret: &RgbaImage) -> (r: RgbaImage)
    requires
        secret.spec_width() == cover.spec_width(),
        secret.spec_height() == cover.spec_height(),
    ensures
        r.spec_width() == cover.spec_width(),
        r.spec_height() == cover.spec_height(),
        r.spec_pixels() == embedded(cover.spec_pixels(), secret.spec_pixels()),
{
    proof {
        use_type_invariant(cover);
        use_type_invariant(secret);
    }
    let n = cover.pixels.len();
    let mut out: Vec<u8> = Vec::with_capacity(n);
    let mut i: usize = 0;
    while i < n
        invariant
            i <= n,
            n == cover.pixels@.len(),
            n == secret.pixels@.len(),
            out@.len() == i,
            forall|j: int| 0 <= j < i ==> out@[j] == embedded(cover.pixels@, secret.pixels@)[j],
        decreases n - i,
    {
        if i % 4 == 3 {
            out.push(cover.pixels[i]);
        } else {
            let b = hide_in_byte(cover.pixels[i], secret.pixels[i]);
            out.push(b);
        }
        i = i + 1;
    }
    assert(out@ =~= embedded(cover.pixels@, secret.pixels@));
    RgbaImage { width: cover.width, height: cover.height, pixels: out }
}

/// Reveals the image hidden in the RGBA image `secret`: each colour byte's
/// low four bits go to the top, every pixel becomes opaque.
pub fn reveal_image(secret: &RgbaImage) -> (r: RgbaImage)
    ensures
        r.spec_width() == secret.spec_width(),
        r.spec_height() == secret.spec_height(),
        r.spec_pixels() == extracted(secret.spec_pixels()),
{
    proof {
        use_type_invariant(secret);
    }
    let n = secret.pixels.len();
    let mut out: Vec<u8> = Vec::with_capacity(n);
    let mut i: usize = 0;
    while i < n
        invariant
            i <= n,
            n == secret.pixels@.len(),
            out@.len() == i,
            forall|j: int| 0 <= j < i ==> out@[j] == extracted(secret.pixels@)[j],
        decreases n - i,
    {
        if i % 4 == 3 {
            out.push(255u8);
        } else {
            let b = reveal_from_byte(secret.pixels[i]);
            out.push(b);
        }
        i = i + 1;
    }
    assert(out@ =~= extracted(secret.pixels@));
    RgbaImage { width: secret.width, height: secret.height, pixels: out }
}

/// Scales `img` with the image crate's `DynamicImage::resize_exact`, which
/// keeps the layout.
#[verifier::external_body]
fn resize_with_crate(img: &DecodedImage, new_width: u32, new_height: u32, filter: ResizeFilter) -> (r:
    DecodedImage)
    requires
        !scaling_fails(img.spec_width(), img.spec_height(), new_width, new_height),
        samples_per_pixel(img.spec_layout()) * img.spec_width() * new_height <= usize::MAX,
        samples_per_pixel(img.spec_layout()) * new_width * new_height <= usize::MAX,
    ensures
        r.spec_layout() == img.spec_layout(),
        r.spec_width() == new_width,
        r.spec_height() == new_height,
        r.spec_samples() == resized_samples(
            img.spec_layout(),
            img.spec_width(),
            img.spec_height(),
            img.spec_samples(),
            new_width,
            new_height,
            filter,
        ),
{
    let (w, h, s) = (img.width, img.height, img.samples.clone());
    let image = match img.layout {
        Luma => ImageBuffer::from_raw(w, h, s).map(ImageLuma8),
        LumaAlpha => ImageBuffer::from_raw(w, h, s).map(ImageLumaA8),
        Rgb => ImageBuffer::from_raw(w, h, s).map(ImageRgb8),
        Rgba => ImageBuffer::from_raw(w, h, s).map(ImageRgba8),
        Bgr => ImageBuffer::from_raw(w, h, s).map(ImageBgr8),
        Bgra => ImageBuffer::from_raw(w, h, s).map(ImageBgra8)
    }.unwrap();
    let samples = image.resize_exact(new_width, new_height, match filter {
        ResizeFilter::Nearest => Nearest,
        ResizeFilter::Lanczos3 => Lanczos3
    }).raw_pixels();
    DecodedImage { layout: img.layout, width: new_width, height: new_height, samples }
}

/// Writes `bytes` into the alpha bytes of `cover` with the steganography
/// crate's `Encoder::encode_alpha`.
#[verifier::external_body]
fn encode_alpha_with_crate(bytes: &[u8], cover: &RgbaImage) -> (r: RgbaImage)
    requires
        cover.spec_width() * cover.spec_height() <= u32::MAX,
        bytes@.len() <= cover.spec_width() * cover.spec_height(),
    ensures
        r.spec_width() == cover.spec_width(),
        r.spec_height() == cover.spec_height(),
        r.spec_pixels() == alpha_filled(cover.spec_pixels(), bytes@),
{
    let buffer = image::ImageBuffer::<image::Rgba<u8>, Vec<u8>>::from_raw(
        cover.width,
        cover.height,
        cover.pixels.clone(),
    ).unwrap();
    let encoder = steganography::encoder::Encoder::new(bytes, image::DynamicImage::ImageRgba8(buffer));
    let out = encoder.encode_alpha();
    RgbaImage { width: cover.width, height: cover.height, pixels: out.into_raw() }
}

/// Hides `secret` in `cover`: the secret is first scaled to the cover's size
/// with Lanczos interpolation, both are brought to RGBA, and the secret is
/// hidden nibble by nibble.
pub fn encode_image(cover: &DecodedImage, secret: &DecodedImage) -> (r: RgbaImage)
    requires
        !scaling_fails(
            secret.spec_width(),
            secret.spec_height(),
            cover.spec_width(),
            cover.spec_height(),
        ),
        samples_per_pixel(secret.spec_layout()) * secret.spec_width() * cover.spec_height() <= usize::MAX,
        samples_per_pixel(secret.spec_layout()) * cover.spec_width() * cover.spec_height() <= usize::MAX,
        4 * cover.spec_width() * cover.spec_height() <= usize::MAX,
    ensures
        r.spec_width() == cover.spec_width(),
        r.spec_height() == cover.spec_height(),
        r.spec_pixels() == embedded(
            rgba_samples(cover.spec_layout(), cover.spec_width(), cover.spec_height(), cover.spec_samples()),
            rgba_samples(
                secret.spec_layout(),
                cover.spec_width(),
                cover.spec_height(),
                resized_samples(
                    secret.spec_layout(),
                    secret.spec_width(),
                    secret.spec_height(),
                    secret.spec_samples(),
                    cover.spec_width(),
                    cover.spec_height(),
                    ResizeFilter::Lanczos3,
                ),
            ),
        ),
{
    let scaled = resize_with_crate(secret, cover.width, cover.height, ResizeFilter::Lanczos3);
    let cover_rgba = to_rgba(cover);
    let secret_rgba = to_rgba(&scaled);
    embed_image(&cover_rgba, &secret_rgba)
}

/// Reveals the image hidden in `secret`, brought to RGBA.  The cover's
/// pixel at each position of the secret is looked at, so the cover must be
/// at least as large unless the secret has no pixel; its values play no
/// part.
pub fn decode_image(secret: &DecodedImage, cover: &DecodedImage) -> (r: RgbaImage)
    requires
        secret.spec_width() == 0 || secret.spec_height() == 0 || (secret.spec_width()
            <= cover.spec_width() && secret.spec_height() <= cover.spec_height()),
        4 * secret.spec_width() * secret.spec_height() <= usize::MAX,
    ensures
        r.spec_width() == secret.spec_width(),
        r.spec_height() == secret.spec_height(),
        r.spec_pixels() == extracted(
            rgba_samples(secret.spec_layout(), secret.spec_width(), secret.spec_height(), secret.spec_samples()),
        ),
{
    let rgba = to_rgba(secret);
    reveal_image(&rgba)
}

/// `img` scaled to `new_width` by `new_height` pixels in its own layout,
/// each new pixel taking the value of the nearest old one.
pub fn low_resolution(img: &DecodedImage, new_width: u32, new_height: u32) -> (r: DecodedImage)
    requires
        !scaling_fails(img.spec_width(), img.spec_height(), new_width, new_height),
        samples_per_pixel(img.spec_layout()) * img.spec_width() * new_height <= usize::MAX,
        samples_per_pixel(img.spec_layout()) * new_width * new_height <= usize::MAX,
    ensures
        r.spec_layout() == img.spec_layout(),
        r.spec_width() == new_width,
        r.spec_height() == new_height,
        r.spec_samples() == resized_samples(
            img.spec_layout(),
            img.spec_width(),
            img.spec_height(),
            img.spec_samples(),
            new_width,
            new_height,
            ResizeFilter::Nearest,
        ),
{
    resize_with_crate(img, new_width, new_height, ResizeFilter::Nearest)
}

/// Hides `bytes` in the alpha bytes of `cover`, one byte per pixel, row
/// after row; the colour bytes and the alpha bytes of the pixels past the
/// last hidden byte stay.
pub fn hide_in_alpha(bytes: &[u8], cover: &RgbaImage) -> (r: RgbaImage)
    requires
        cover.spec_width() * cover.spec_height() <= u32::MAX,
        bytes@.len() <= cover.spec_width() * cover.spec_height(),
    ensures
        r.spec_width() == cover.spec_width(),
        r.spec_height() == cover.spec_height(),
        r.spec_pixels() == alpha_filled(cover.spec_pixels(), bytes@),
{
    encode_alpha_with_crate(bytes, cover)
}

/// Revealing gives back the high four bits of every hidden byte, and hiding
/// changes a cover byte only in its low four bits.
pub proof fn lemma_reveal_after_hide(cover: u8, secret: u8)
    ensures
        reveal_nibble(hide_nibble(cover, secret)) == (secret / 16) * 16,
        hide_nibble(cover, secret) / 16 == cover / 16,
{
}

/// Each colour byte of a cover that hides a secret keeps the cover byte's
/// high four bits and carries the secret byte's high four bits in its low
/// four bits; each alpha byte is the cover's.
pub proof fn lemma_embedded_bytes(cover: Seq<u8>, secret: Seq<u8>, i: int)
    requires
        cover.len() == secret.len(),
        0 <= i < cover.len(),
    ensures
        embedded(cover, secret).len() == cover.len(),
        i % 4 != 3 ==> embedded(cover, secret)[i] / 16 == cover[i] / 16,
        i % 4 != 3 ==> embedded(cover, secret)[i] % 16 == secret[i] / 16,
        i % 4 == 3 ==> embedded(cover, secret)[i] == cover[i],
{
}

/// The image revealed from a cover that hides a secret of the same size is
/// the secret with the low four bits of each colour byte cleared, every
/// pixel opaque; the cover plays no part in it.
pub proof fn lemma_decode_after_embed(cover: Seq<u8>, secret: Seq<u8>)
    requires
        cover.len() == secret.len(),
    ensures
        extracted(embedded(cover, secret)) == Seq::new(
            secret.len(),
            |i: int| if i % 4 == 3 { 255u8 } else { ((secret[i] / 16) * 16) as u8 },
        ),
{
    assert(extracted(embedded(cover, secret)) =~= Seq::new(
        secret.len(),
        |i: int| if i % 4 == 3 { 255u8 } else { ((secret[i] / 16) * 16) as u8 },
    ));
}

/// The bytes hidden in the alpha channel can be read back, one per pixel,
/// and the colour bytes are those of the cover.
pub proof fn lemma_alpha_carries_bytes(pixels: Seq<u8>, bytes: Seq<u8>)
    requires
        bytes.len() * 4 <= pixels.len(),
    ensures
        forall|k: int| 0 <= k < bytes.len() ==> #[trigger] alpha_filled(pixels, bytes)[4 * k + 3]
            == bytes[k],
        forall|i: int| 0 <= i < pixels.len() && i % 4 != 3 ==> #[trigger] alpha_filled(pixels, bytes)[i]
            == pixels[i],
{
    assert forall|k: int| 0 <= k < bytes.len() implies #[trigger] alpha_filled(pixels, bytes)[4 * k
        + 3] == bytes[k] by {
        assert((4 * k + 3) % 4 == 3 && (4 * k + 3) / 4 == k);
    }
}

/// How the samples of a decoded image are laid out, one byte per sample.
#[derive(PartialEq, Eq, Structural, Clone, Copy)]
pub enum PixelLayout {
    /// One grey sample per pixel.
    Luma,
    /// A grey and an alpha sample per pixel.
    LumaAlpha,
    /// Red, green and blue.
    Rgb,
    /// Red, green, blue and alpha.
    Rgba,
    /// Blue, green and red.
    Bgr,
    /// Blue, green, red and alpha.
    Bgra,
}

/// The number of samples per pixel in `layout`.
pub open spec fn samples_per_pixel(layout: PixelLayout) -> nat {
    match layout {
        PixelLayout::Luma => 1,
        PixelLayout::LumaAlpha => 2,
        PixelLayout::Rgb => 3,
        PixelLayout::Rgba => 4,
        PixelLayout::Bgr => 3,
        PixelLayout::Bgra => 4,
    }
}

/// The number of samples per pixel in `layout`.
pub fn samples_in_pixel(layout: PixelLayout) -> (r: usize)
    ensures
        r == samples_per_pixel(layout),
        1 <= r <= 4,
{
    match layout {
        PixelLayout::Luma => 1,
        PixelLayout::LumaAlpha => 2,
        PixelLayout::Rgb => 3,
        PixelLayout::Rgba => 4,
        PixelLayout::Bgr => 3,
        PixelLayout::Bgra => 4,
    }
}

/// An image as a file decodes to: its layout, its size and its samples,
/// row after row.
pub struct DecodedImage {
    layout: PixelLayout,
    width: u32,
    height: u32,
    samples: Vec<u8>,
}

impl DecodedImage {
    #[verifier::type_invariant]
    spec fn well_formed(self) -> bool {
        self.samples@.len() == samples_per_pixel(self.layout) * self.width * self.height
    }

    /// How the samples are laid out.
    pub closed spec fn spec_layout(&self) -> PixelLayout {
        self.layout
    }

    /// The number of pixels in a row.
    pub closed spec fn spec_width(&self) -> u32 {
        self.width
    }

    /// The number of rows.
    pub closed spec fn spec_height(&self) -> u32 {
        self.height
    }

    /// The samples, row after row.
    pub closed spec fn spec_samples(&self) -> Seq<u8> {
        self.samples@
    }

    /// The image of the given layout and size whose samples are `samples`,
    /// if their number fits the layout and size.
    pub fn from_raw(layout: PixelLayout, width: u32, height: u32, samples: Vec<u8>) -> (r: Option<Self>)
        ensures
            r is Some <==> samples@.len() == samples_per_pixel(layout) * width * height,
            r matches Some(img) ==> img.spec_layout() == layout && img.spec_width() == width
                && img.spec_height() == height && img.spec_samples() == samples@,
    {
        let per_pixel: u128 = samples_in_pixel(layout) as u128;
        assert((width as u128) * (height as u128) <= 0xffff_ffff_ffff_ffffu128) by (nonlinear_arith)
            requires
                width <= 0xffff_ffffu32,
                height <= 0xffff_ffffu32,
        ;
        let area: u128 = (width as u128) * (height as u128);
        assert(per_pixel == samples_per_pixel(layout) && per_pixel <= 4);
        assert(per_pixel * area <= 4 * 0xffff_ffff_ffff_ffffu128) by (nonlinear_arith)
            requires
                per_pixel <= 4,
                area <= 0xffff_ffff_ffff_ffffu128,
        ;
        let wanted: u128 = per_pixel * area;
        assert(wanted == samples_per_pixel(layout) * width * height) by (nonlinear_arith)
            requires
                area == width * height,
                wanted == per_pixel * area,
                per_pixel == samples_per_pixel(layout),
        ;
        if (samples.len() as u128) == wanted {
            Some(DecodedImage { layout, width, height, samples })
        } else {
            None
        }
    }
    /// How the samples are laid out.
    pub fn layout(&self) -> (r: PixelLayout)
        ensures
            r == self.spec_layout(),
    {
        self.layout
    }

    /// The number of pixels in a row.
    pub fn width(&self) -> (r: u32)
        ensures
            r == self.spec_width(),
    {
        self.width
    }

    /// The number of rows.
    pub fn height(&self) -> (r: u32)
        ensures
            r == self.spec_height(),
    {
        self.height
    }

    /// The samples, row after row.
    pub fn into_raw(self) -> (r: Vec<u8>)
        ensures
            r@ == self.spec_samples(),
    {
        self.samples
    }
}

/// The RGBA bytes of a single pixel whose samples, in `layout`, are `px`.
pub open spec fn pixel_to_rgba(layout: PixelLayout, px: Seq<u8>) -> Seq<u8> {
    match layout {
        PixelLayout::Luma => seq![px[0], px[0], px[0], 255u8],
        PixelLayout::LumaAlpha => seq![px[0], px[0], px[0], px[1]],
        PixelLayout::Rgb => seq![px[0], px[1], px[2], 255u8],
        PixelLayout::Rgba => seq![px[0], px[1], px[2], px[3]],
        PixelLayout::Bgr => seq![px[2], px[1], px[0], 255u8],
        PixelLayout::Bgra => seq![px[2], px[1], px[0], px[3]],
    }
}

/// Conversion to RGBA works pixel by pixel: RGBA pixel `p` is made from
/// the samples of pixel `p` alone, the `samples_per_pixel` bytes from
/// `samples_per_pixel * p` on, and a grey pixel becomes its grey three
/// times, a blue-first pixel is turned around, and a pixel without alpha is
/// opaque.
pub proof fn lemma_rgba_pixel_by_pixel(layout: PixelLayout, width: u32, height: u32, s: Seq<u8>, p: int)
    requires
        s.len() == samples_per_pixel(layout) * width * height,
        0 <= p < width * height,
    ensures
        rgba_samples(layout, width, height, s).subrange(4 * p, 4 * p + 4) == pixel_to_rgba(
            layout,
            s.subrange(samples_per_pixel(layout) * p, samples_per_pixel(layout) * p + samples_per_pixel(layout)),
        ),
{
    let n = samples_per_pixel(layout);
    assert(n * p + n <= s.len()) by (nonlinear_arith)
        requires
            s.len() == n * width * height,
            0 <= p < width * height,
            n >= 1,
    ;
    let r = rgba_samples(layout, width, height, s);
    assert(4 * p + 4 <= r.len()) by (nonlinear_arith)
        requires
            r.len() == 4 * width * height,
            0 <= p < width * height,
    ;
    assert((4 * p) / 4 == p && (4 * p) % 4 == 0);
    assert((4 * p + 1) / 4 == p && (4 * p + 1) % 4 == 1);
    assert((4 * p + 2) / 4 == p && (4 * p + 2) % 4 == 2);
    assert((4 * p + 3) / 4 == p && (4 * p + 3) % 4 == 3);
    assert(r.subrange(4 * p, 4 * p + 4) =~= pixel_to_rgba(layout, s.subrange(n * p, n * p + n)));
}

/// `img` brought to RGBA pixels as the image crate's `to_rgba` converts it:
/// grey goes to each colour, a missing alpha is opaque, and blue-first
/// layouts are turned around.
pub fn to_rgba(img: &DecodedImage) -> (r: RgbaImage)
    requires
        4 * img.spec_width() * img.spec_height() <= usize::MAX,
    ensures
        r.spec_width() == img.spec_width(),
        r.spec_height() == img.spec_height(),
        r.spec_pixels() == rgba_samples(img.spec_layout(), img.spec_width(), img.spec_height(), img.spec_samples()),
{
    proof {
        use_type_invariant(img);
    }
    let n = samples_in_pixel(img.layout);
    let total = img.samples.len();
    let s = &img.samples;
    let layout = img.layout;
    let ghost area: int = img.width * img.height;
    let ghost target = rgba_samples(layout, img.width, img.height, s@);
    assert(total == n * area && target.len() == 4 * area) by (nonlinear_arith)
        requires
            total == samples_per_pixel(layout) * img.width * img.height,
            n == samples_per_pixel(layout),
            area == img.width * img.height,
            target.len() == 4 * img.width * img.height,
    ;
    let mut out: Vec<u8> = Vec::new();
    let mut base: usize = 0;
    let ghost mut p: int = 0;
    while base < total
        invariant
            total == s@.len(),
            total == n * area,
            n == samples_per_pixel(layout),
            1 <= n <= 4,
            0 <= p <= area,
            base == n * p,
            base <= total,
            out@.len() == 4 * p,
            target.len() == 4 * area,
            target == rgba_samples(layout, img.width, img.height, s@),
            forall|j: int| 0 <= j < out@.len() ==> out@[j] == target[j],
        decreases total - base,
    {
        assert(p < area) by (nonlinear_arith)
            requires
                base == n * p,
                base < total,
                total == n * area,
                n >= 1,
        ;
        assert(base + n <= total) by (nonlinear_arith)
            requires
                base == n * p,
                p + 1 <= area,
                total == n * area,
                n >= 1,
        ;
        let ghost before = out@;
        match layout {
            PixelLayout::Luma => {
                assert(base == p);
                let l = s[base];
                out.push(l);
                out.push(l);
                out.push(l);
                out.push(255u8);
            },
            PixelLayout::LumaAlpha => {
                assert(base == 2 * p);
                let l = s[base];
                out.push(l);
                out.push(l);
                out.push(l);
                out.push(s[base + 1]);
            },
            PixelLayout::Rgb => {
                assert(base == 3 * p);
                out.push(s[base]);
                out.push(s[base + 1]);
                out.push(s[base + 2]);
                out.push(255u8);
            },
            PixelLayout::Rgba => {
                assert(base == 4 * p);
                out.push(s[base]);
                out.push(s[base + 1]);
                out.push(s[base + 2]);
                out.push(s[base + 3]);
            },
            PixelLayout::Bgr => {
                assert(base == 3 * p);
                out.push(s[base + 2]);
                out.push(s[base + 1]);
                out.push(s[base]);
                out.push(255u8);
            },
            PixelLayout::Bgra => {
                assert(base == 4 * p);
                out.push(s[base + 2]);
                out.push(s[base + 1]);
                out.push(s[base]);
                out.push(s[base + 3]);
            },
        }
        assert forall|c: int| 0 <= c < 4 implies #[trigger] out@[4 * p + c] == target[4 * p + c] by {
            assert((4 * p + c) / 4 == p && (4 * p + c) % 4 == c);
        }
        assert forall|j: int| 0 <= j < out@.len() implies out@[j] == target[j] by {
            if j < 4 * p {
                assert(out@[j] == before[j]);
            } else {
                assert(out@[4 * p + (j - 4 * p)] == target[4 * p + (j - 4 * p)]);
            }
        }
        base = base + n;
        proof {
            p = p + 1;
        }
    }
    assert(p == area) by (nonlinear_arith)
        requires
            base == n * p,
            base >= total,
            base <= total,
            total == n * area,
            n >= 1,
    ;
    assert(out@ =~= target);
    RgbaImage { width: img.width, height: img.height, pixels: out }
}


/// The bytes of the PNG file that the image crate writes for a decoded
/// image of the given layout, size and samples, if it writes one.
pub uninterp spec fn png_encoding(layout: PixelLayout, width: u32, height: u32, samples: Seq<u8>) -> Option<
    Seq<u8>,
>;

/// Writes `img` as a PNG file into memory with the image crate's
/// `DynamicImage::write_to`.
#[verifier::external_body]
fn png_with_crate(img: &DecodedImage) -> (r: Option<Vec<u8>>)
    requires
        img.spec_width() > 0,
    ensures
        match r {
            Some(b) => png_encoding(img.spec_layout(), img.spec_width(), img.spec_height(), img.spec_samples())
                == Some(b@),
            None => png_encoding(img.spec_layout(), img.spec_width(), img.spec_height(), img.spec_samples())
                is None,
        },
{
    let (w, h, s) = (img.width, img.height, img.samples.clone());
    let image = match img.layout {
        Luma => ImageBuffer::from_raw(w, h, s).map(ImageLuma8),
        LumaAlpha => ImageBuffer::from_raw(w, h, s).map(ImageLumaA8),
        Rgb => ImageBuffer::from_raw(w, h, s).map(ImageRgb8),
        Rgba => ImageBuffer::from_raw(w, h, s).map(ImageRgba8),
        Bgr => ImageBuffer::from_raw(w, h, s).map(ImageBgr8),
        Bgra => ImageBuffer::from_raw(w, h, s).map(ImageBgra8),
    }.unwrap();
    let mut bytes = Vec::new();
    image.write_to(&mut bytes, PNG).ok()?;
    Some(bytes)
}

/// Why a secret image could not be hidden in a cover.
#[derive(PartialEq, Eq, Structural, Clone, Copy)]
pub enum ConcealError {
    /// The secret has no column of pixels, which the PNG writer cannot cut
    /// into rows.
    EmptySecret,
    /// The image crate wrote no PNG file for the secret.
    NotEncodable,
    /// The cover has more pixels than a 32-bit count holds, or more RGBA
    /// bytes than memory can address.
    CoverTooLarge,
    /// The secret's PNG file has more bytes than the cover has pixels.
    SecretTooLarge,
}

/// Hides the secret image, written as a PNG file, in the alpha bytes of
/// `cover` brought to RGBA, one byte per pixel, row after row.
pub fn conceal_image(secret: &DecodedImage, cover: &DecodedImage) -> (r: Result<RgbaImage, ConcealError>)
    ensures
        secret.spec_width() == 0 ==> r == Err::<RgbaImage, ConcealError>(ConcealError::EmptySecret),
        secret.spec_width() > 0 ==> match png_encoding(
            secret.spec_layout(),
            secret.spec_width(),
            secret.spec_height(),
            secret.spec_samples(),
        ) {
            None => r == Err::<RgbaImage, ConcealError>(ConcealError::NotEncodable),
            Some(png) => if cover.spec_width() * cover.spec_height() > u32::MAX || 4
                * cover.spec_width() * cover.spec_height() > usize::MAX {
                r == Err::<RgbaImage, ConcealError>(ConcealError::CoverTooLarge)
            } else if png.len() > cover.spec_width() * cover.spec_height() {
                r == Err::<RgbaImage, ConcealError>(ConcealError::SecretTooLarge)
            } else {
                r matches Ok(img) && img.spec_width() == cover.spec_width() && img.spec_height()
                    == cover.spec_height() && img.spec_pixels() == alpha_filled(
                    rgba_samples(
                        cover.spec_layout(),
                        cover.spec_width(),
                        cover.spec_height(),
                        cover.spec_samples(),
                    ),
                    png,
                )
            },
        },
{
    if secret.width() == 0 {
        return Err(ConcealError::EmptySecret);
    }
    let png = match png_with_crate(secret) {
        Some(b) => b,
        None => return Err(ConcealError::NotEncodable),
    };
    let w = cover.width();
    let h = cover.height();
    assert((w as u64) * (h as u64) <= 0xffff_ffff_ffff_ffffu64) by (nonlinear_arith)
        requires
            w <= 0xffff_ffffu32,
            h <= 0xffff_ffffu32,
    ;
    let pixels: u64 = (w as u64) * (h as u64);
    assert(4 * w * h == 4 * pixels) by (nonlinear_arith)
        requires
            pixels == w * h,
    ;
    if pixels > 0xffff_ffffu64 {
        return Err(ConcealError::CoverTooLarge);
    }
    if (pixels as u128) * 4 > (usize::MAX as u128) {
        return Err(ConcealError::CoverTooLarge);
    }
    if png.len() as u64 > pixels {
        return Err(ConcealError::SecretTooLarge);
    }
    let rgba = to_rgba(cover);
    Ok(hide_in_alpha(png.as_slice(), &rgba))
}

} // verus!
