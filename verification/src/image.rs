//! Image ingestion: the format is read off the bytes, the image is fitted to
//! what the wire accepts, and goes out as a base64 block.

use base64::engine::general_purpose::STANDARD;
use base64::Engine;
use vstd::prelude::*;

use crate::protocol::BlockView;
use crate::protocol::ContentBlock;
use crate::protocol::ImageSource;
use crate::text;

verus! {

/// The most raw bytes that an image may have.
pub const MAX_IMAGE_BYTES: usize = 5_242_880;

/// The raw bytes that an image on the wire is to stay within. Base64 adds a
/// third, so that what goes out is no larger than `MAX_IMAGE_BYTES`.
pub const WIRE_TARGET_BYTES: usize = 3_932_160;

/// The longest edge that goes out.
pub const MAX_WIRE_DIMENSION: u32 = 2_000;

/// The longest edge that is tried last.
pub const MIN_WIRE_DIMENSION: u32 = 256;

/// The most pixels that are decoded.
pub const MAX_DECODE_PIXELS: u64 = 64_000_000;

/// The most bytes that a decoder may allocate.
pub const MAX_DECODE_ALLOC_BYTES: u64 = 268_435_456;

/// An image for the wire. `resized` is nothing where the source bytes went out
/// untouched.
#[derive(Debug, PartialEq, Eq)]
pub struct PreparedImage {
    pub block: ContentBlock,
    pub resized: Option<Resized>,
}

/// What a downscale did to the dimensions.
#[derive(Clone, Copy, Debug, PartialEq, Eq)]
pub struct Resized {
    pub from: (u32, u32),
    pub to: (u32, u32),
}

#[verifier::ext_equal]
pub struct PreparedView {
    pub block: BlockView,
    pub resized: Option<Resized>,
}

impl View for PreparedImage {
    type V = PreparedView;

    open spec fn view(&self) -> PreparedView {
        PreparedView { block: self.block@, resized: self.resized }
    }
}

// ---------------------------------------------------------------------------
// Formats
// ---------------------------------------------------------------------------

/// Whether bytes begin with others.
pub open spec fn begins(bytes: Seq<u8>, magic: Seq<u8>) -> bool {
    bytes.len() >= magic.len() && bytes.take(magic.len() as int) == magic
}

pub open spec fn png_magic() -> Seq<u8> {
    seq![0x89u8, 0x50, 0x4e, 0x47, 0x0d, 0x0a, 0x1a, 0x0a]
}

pub open spec fn jpeg_magic() -> Seq<u8> {
    seq![0xffu8, 0xd8, 0xff]
}

/// `GIF87a` and `GIF89a`.
pub open spec fn gif_magic(year: u8) -> Seq<u8> {
    seq![0x47u8, 0x49, 0x46, 0x38, year, 0x61]
}

/// A RIFF container that is tagged `WEBP`.
pub open spec fn is_webp(bytes: Seq<u8>) -> bool {
    &&& bytes.len() >= 12
    &&& bytes.subrange(0, 4) == seq![0x52u8, 0x49, 0x46, 0x46]
    &&& bytes.subrange(8, 12) == seq![0x57u8, 0x45, 0x42, 0x50]
}

/// The media type that the leading bytes show.
pub open spec fn media_type_of(bytes: Seq<u8>) -> Option<Seq<char>> {
    if begins(bytes, png_magic()) {
        Some("image/png"@)
    } else if begins(bytes, jpeg_magic()) {
        Some("image/jpeg"@)
    } else if begins(bytes, gif_magic(0x37)) || begins(bytes, gif_magic(0x39)) {
        Some("image/gif"@)
    } else if is_webp(bytes) {
        Some("image/webp"@)
    } else {
        None
    }
}

fn has_at(bytes: &[u8], from: usize, magic: &[u8]) -> (r: bool)
    requires
        from <= 8,
    ensures
        r == (from + magic@.len() <= bytes@.len() && bytes@.subrange(
            from as int,
            from + magic@.len(),
        ) == magic@),
{
    let n: usize = magic.len();
    let len: usize = bytes.len();
    if len < from || len - from < n {
        return false;
    }
    let ghost part = bytes@.subrange(from as int, from + magic@.len());
    let mut i: usize = 0;
    while i < n
        invariant
            i <= n == magic@.len(),
            from + n <= len == bytes@.len(),
            part == bytes@.subrange(from as int, from + magic@.len()),
            forall|k: int| 0 <= k < i ==> part[k] == magic@[k],
        decreases n - i,
    {
        if bytes[from + i] != magic[i] {
            proof {
                assert(part[i as int] != magic@[i as int]);
            }
            return false;
        }
        i += 1;
    }
    proof {
        assert(part =~= magic@);
    }
    true
}

/// The media type of image bytes; nothing for what is not a PNG, JPEG, GIF or
/// WebP image.
pub fn detect_media_type(bytes: &[u8]) -> (r: Option<&'static str>)
    ensures
        match r {
            Some(m) => media_type_of(bytes@) == Some(m@),
            None => media_type_of(bytes@) is None,
        },
{
    let png: [u8; 8] = [0x89, 0x50, 0x4e, 0x47, 0x0d, 0x0a, 0x1a, 0x0a];
    let jpeg: [u8; 3] = [0xff, 0xd8, 0xff];
    let gif_87: [u8; 6] = [0x47, 0x49, 0x46, 0x38, 0x37, 0x61];
    let gif_89: [u8; 6] = [0x47, 0x49, 0x46, 0x38, 0x39, 0x61];
    let riff: [u8; 4] = [0x52, 0x49, 0x46, 0x46];
    let webp: [u8; 4] = [0x57, 0x45, 0x42, 0x50];
    proof {
        assert(png@ =~= png_magic());
        assert(jpeg@ =~= jpeg_magic());
        assert(gif_87@ =~= gif_magic(0x37));
        assert(gif_89@ =~= gif_magic(0x39));
        assert(riff@ =~= seq![0x52u8, 0x49, 0x46, 0x46]);
        assert(webp@ =~= seq![0x57u8, 0x45, 0x42, 0x50]);
    }
    if has_at(bytes, 0, png.as_slice()) {
        Some("image/png")
    } else if has_at(bytes, 0, jpeg.as_slice()) {
        Some("image/jpeg")
    } else if has_at(bytes, 0, gif_87.as_slice()) || has_at(bytes, 0, gif_89.as_slice()) {
        Some("image/gif")
    } else if has_at(bytes, 0, riff.as_slice()) && has_at(bytes, 8, webp.as_slice()) {
        Some("image/webp")
    } else {
        None
    }
}

// ---------------------------------------------------------------------------
// The codecs
// ---------------------------------------------------------------------------

/// `image::DynamicImage`: decoded pixels.
#[verifier::external_type_specification]
#[verifier::external_body]
pub struct ExDynamicImage(image::DynamicImage);

/// A six-bit number in the standard base64 alphabet.
pub open spec fn base64_digit(n: int) -> char {
    "ABCDEFGHIJKLMNOPQRSTUVWXYZabcdefghijklmnopqrstuvwxyz0123456789+/"@[n]
}

/// Up to three bytes as four characters, padded.
pub open spec fn base64_group(bytes: Seq<u8>) -> Seq<char> {
    let second = if bytes.len() > 1 {
        bytes[1] as int
    } else {
        0
    };
    let third = if bytes.len() > 2 {
        bytes[2] as int
    } else {
        0
    };
    let bits = bytes[0] * 65536 + second * 256 + third;
    seq![
        base64_digit(bits / 262144),
        base64_digit(bits / 4096 % 64),
        if bytes.len() > 1 {
            base64_digit(bits / 64 % 64)
        } else {
            '='
        },
        if bytes.len() > 2 {
            base64_digit(bits % 64)
        } else {
            '='
        },
    ]
}

/// The base64 text of bytes, in the standard alphabet with padding.
pub open spec fn base64_form(bytes: Seq<u8>) -> Seq<char>
    decreases bytes.len(),
{
    if bytes.len() == 0 {
        Seq::empty()
    } else if bytes.len() <= 3 {
        base64_group(bytes)
    } else {
        base64_group(bytes.take(3)) + base64_form(bytes.skip(3))
    }
}

/// Base64 takes four characters for every three bytes that were begun.
proof fn lemma_base64_len(bytes: Seq<u8>)
    ensures
        base64_form(bytes).len() == 4 * ((bytes.len() + 2) / 3),
    decreases bytes.len(),
{
    if bytes.len() > 3 {
        lemma_base64_len(bytes.skip(3));
    }
}

/// `base64`'s standard engine: the text of the bytes in the standard alphabet,
/// padded. It panics where the length of the text does not fit, which the bound
/// on the input rules out.
#[verifier::external_body]
fn base64_encode(bytes: &[u8]) -> (r: String)
    requires
        bytes@.len() <= MAX_IMAGE_BYTES,
    ensures
        r@ == base64_form(bytes@),
{
    STANDARD.encode(bytes)
}

/// The dimensions that `image` reads off the header of image bytes.
pub uninterp spec fn header_size(bytes: Seq<u8>) -> Option<(u32, u32)>;

/// `image::ImageReader::into_dimensions` under the format guessed from the bytes:
/// width and height, nothing where no header can be read. No pixel is decoded.
#[verifier::external_body]
pub(crate) fn header_dimensions(bytes: &[u8]) -> (r: Option<(u32, u32)>)
    ensures
        r == header_size(bytes@),
{
    image::ImageReader::new(std::io::Cursor::new(bytes))
        .with_guessed_format()
        .ok()?
        .into_dimensions()
        .ok()
}

/// The width and height of an image.
pub uninterp spec fn image_size(image: image::DynamicImage) -> (u32, u32);

/// `image::DynamicImage::width` and `height`.
#[verifier::external_body]
fn dimensions(image: &image::DynamicImage) -> (r: (u32, u32))
    ensures
        r == image_size(*image),
{
    (image.width(), image.height())
}

/// Why image bytes could not be decoded.
#[derive(Debug, PartialEq, Eq)]
pub enum DecodeError {
    Header(String),
    Pixels(String),
}

/// Whether `image` decodes image bytes with at most `max_alloc` bytes allocated.
pub uninterp spec fn decodes(bytes: Seq<u8>, max_alloc: u64) -> bool;

/// `image::ImageReader::decode` under the format guessed from the bytes, with at
/// most `max_alloc` bytes allocated, a size that every address space has. Whether
/// it succeeds is a function of the bytes and of the limit: what differs between
/// machines only computes pixels. The dimensions are those of the header. Which
/// pixels come out of a lossy format is up to the decoder and the machine it
/// runs on, and so is left unsaid, as are the words of a refusal.
#[verifier::external_body]
fn decode_pixels(bytes: &[u8], max_alloc: u64) -> (r: Result<image::DynamicImage, DecodeError>)
    requires
        max_alloc <= MAX_DECODE_ALLOC_BYTES,
    ensures
        r is Ok == decodes(bytes@, max_alloc),
        r matches Ok(image) ==> (header_size(bytes@) matches Some(size) ==> image_size(image)
            == size),
{
    let mut limits = image::Limits::default();
    limits.max_alloc = Some(max_alloc);
    let mut reader = image::ImageReader::new(std::io::Cursor::new(bytes))
        .with_guessed_format()
        .map_err(|error| DecodeError::Header(error.to_string()))?;
    reader.limits(limits);
    reader.decode().map_err(|error| DecodeError::Pixels(error.to_string()))
}

/// Whether dimensions fill a square box: within it, and up to its edge.
pub open spec fn fills_box(size: (u32, u32), edge: u32) -> bool {
    &&& 1 <= size.0 <= edge
    &&& 1 <= size.1 <= edge
    &&& size.0 == edge || size.1 == edge
}

/// Whether dimensions are others at the same aspect ratio, up to the rounding of
/// one edge.
pub open spec fn keeps_aspect(from: (u32, u32), to: (u32, u32)) -> bool {
    let skew = to.1 * from.0 - from.1 * to.0;
    -longest_edge(from) <= skew <= longest_edge(from)
}

/// The longer of two edges.
pub open spec fn longest_edge(size: (u32, u32)) -> u32 {
    if size.0 >= size.1 {
        size.0
    } else {
        size.1
    }
}

/// `image::DynamicImage::resize` with the Lanczos3 filter: the largest size that
/// fits a square box at the same aspect ratio. The pixels come from floating-point
/// sines, whose precision varies with the machine, and so are left unsaid.
#[verifier::external_body]
fn resize_to(image: &image::DynamicImage, edge: u32) -> (r: image::DynamicImage)
    requires
        1 <= edge < longest_edge(image_size(*image)),
    ensures
        fills_box(image_size(r), edge),
        keeps_aspect(image_size(*image), image_size(r)),
{
    image.resize(edge, edge, image::imageops::FilterType::Lanczos3)
}

/// The PNG file that `image` writes for an image; nothing where it cannot.
pub uninterp spec fn png_form(image: image::DynamicImage) -> Option<Seq<u8>>;

/// `image::DynamicImage::write_to` as PNG: the file is a function of the image.
#[verifier::external_body]
fn encode_png(image: &image::DynamicImage) -> (r: Option<Vec<u8>>)
    ensures
        match r {
            Some(bytes) => png_form(*image) == Some(bytes@),
            None => png_form(*image) is None,
        },
{
    let mut buf: Vec<u8> = Vec::new();
    image.write_to(&mut std::io::Cursor::new(&mut buf), image::ImageFormat::Png).ok()?;
    Some(buf)
}

/// The JPEG file that `image` writes for an image without its alpha channel;
/// nothing where it cannot.
pub uninterp spec fn jpeg_form(image: image::DynamicImage, quality: u8) -> Option<Seq<u8>>;

/// `image::codecs::jpeg::JpegEncoder::encode_image` at a quality, on the image
/// converted by `to_rgb8`: the file is a function of the image and the quality.
#[verifier::external_body]
fn encode_jpeg(image: &image::DynamicImage, quality: u8) -> (r: Option<Vec<u8>>)
    requires
        1 <= quality <= 100,
    ensures
        match r {
            Some(bytes) => jpeg_form(*image, quality) == Some(bytes@),
            None => jpeg_form(*image, quality) is None,
        },
{
    let mut buf: Vec<u8> = Vec::new();
    let opaque = image::DynamicImage::ImageRgb8(image.to_rgb8());
    image::codecs::jpeg::JpegEncoder::new_with_quality(&mut buf, quality)
        .encode_image(&opaque)
        .ok()?;
    Some(buf)
}

// ---------------------------------------------------------------------------
// Fitting
// ---------------------------------------------------------------------------

/// An image that fits the wire.
#[derive(Debug, PartialEq, Eq)]
pub struct FittedImage {
    pub bytes: Vec<u8>,
    pub media_type: &'static str,
    pub dimensions: (u32, u32),
}

#[verifier::ext_equal]
pub struct FittedView {
    pub bytes: Seq<u8>,
    pub media_type: Seq<char>,
    pub dimensions: (u32, u32),
}

impl View for FittedImage {
    type V = FittedView;

    open spec fn view(&self) -> FittedView {
        FittedView {
            bytes: self.bytes@,
            media_type: self.media_type@,
            dimensions: self.dimensions,
        }
    }
}

/// An encoding that stays within the target.
pub open spec fn within_target(form: Option<Seq<u8>>) -> Option<Seq<u8>> {
    match form {
        Some(bytes) if bytes.len() <= WIRE_TARGET_BYTES => Some(bytes),
        _ => None,
    }
}

/// The JPEG qualities, best first.
pub open spec fn quality_steps() -> Seq<u8> {
    seq![80u8, 60, 40, 20]
}

/// The first JPEG quality from step `k` on that fits.
pub open spec fn first_jpeg(image: image::DynamicImage, k: int) -> Option<Seq<u8>>
    decreases 4 - k,
{
    if k < 0 || k >= 4 {
        None
    } else {
        match within_target(jpeg_form(image, quality_steps()[k])) {
            Some(bytes) => Some(bytes),
            None => first_jpeg(image, k + 1),
        }
    }
}

/// What one size of an image comes to: its PNG wherever that fits, else the best
/// JPEG that does.
pub open spec fn rung(image: image::DynamicImage) -> Option<FittedView> {
    match within_target(png_form(image)) {
        Some(bytes) => Some(
            FittedView { bytes, media_type: "image/png"@, dimensions: image_size(image) },
        ),
        None => match first_jpeg(image, 0) {
            Some(bytes) => Some(
                FittedView { bytes, media_type: "image/jpeg"@, dimensions: image_size(image) },
            ),
            None => None,
        },
    }
}

/// What one size of an image comes to.
pub fn encode_rung(image: &image::DynamicImage) -> (r: Option<FittedImage>)
    ensures
        match r {
            Some(fitted) => rung(*image) == Some(fitted@),
            None => rung(*image) is None,
        },
{
    let size = dimensions(image);
    if let Some(bytes) = encode_png(image) {
        if bytes.len() <= WIRE_TARGET_BYTES {
            return Some(FittedImage { bytes, media_type: "image/png", dimensions: size });
        }
    }
    let steps: [u8; 4] = [80, 60, 40, 20];
    proof {
        assert(steps@ =~= quality_steps());
    }
    let mut k: usize = 0;
    while k < 4
        invariant
            k <= 4,
            steps@ == quality_steps(),
            size == image_size(*image),
            within_target(png_form(*image)) is None,
            first_jpeg(*image, 0) == first_jpeg(*image, k as int),
        decreases 4 - k,
    {
        proof {
            assert(steps@[k as int] == 80 || steps@[k as int] == 60 || steps@[k as int] == 40
                || steps@[k as int] == 20);
        }
        if let Some(bytes) = encode_jpeg(image, steps[k]) {
            if bytes.len() <= WIRE_TARGET_BYTES {
                return Some(FittedImage { bytes, media_type: "image/jpeg", dimensions: size });
            }
        }
        k += 1;
    }
    None
}

/// The next smaller edge.
pub open spec fn smaller_edge(edge: u32) -> u32 {
    if edge * 3 / 4 >= MIN_WIRE_DIMENSION {
        (edge * 3 / 4) as u32
    } else {
        MIN_WIRE_DIMENSION
    }
}

/// The edge that is tried at step `n`. An image is never enlarged.
pub open spec fn edge_at(longest: u32, n: nat) -> u32
    decreases n,
{
    if n == 0 {
        if longest < MAX_WIRE_DIMENSION {
            longest
        } else {
            MAX_WIRE_DIMENSION
        }
    } else {
        smaller_edge(edge_at(longest, (n - 1) as nat))
    }
}

/// Whether an image is another at an edge: itself, or resized to fill the box.
pub open spec fn is_at_edge(
    scaled: image::DynamicImage,
    decoded: image::DynamicImage,
    edge: u32,
) -> bool {
    if edge < longest_edge(image_size(decoded)) {
        fills_box(image_size(scaled), edge) && keeps_aspect(
            image_size(decoded),
            image_size(scaled),
        )
    } else {
        scaled == decoded
    }
}

/// Whether images are the sizes that were tried, from the largest down: each but
/// the last had no encoding within the target.
pub open spec fn is_descent(
    decoded: image::DynamicImage,
    tried: Seq<image::DynamicImage>,
) -> bool {
    let longest = longest_edge(image_size(decoded));
    &&& tried.len() > 0
    &&& forall|i: int|
        0 <= i < tried.len() ==> is_at_edge(#[trigger] tried[i], decoded, edge_at(longest, i as nat))
    &&& forall|i: int|
        0 <= i < tried.len() - 1 ==> rung(#[trigger] tried[i]) is None && edge_at(longest, i as nat)
            > MIN_WIRE_DIMENSION
}

/// What is said of an image that does not fit at its smallest size.
pub open spec fn too_large_text(source_type: Seq<char>, size: (u32, u32)) -> Seq<char> {
    source_type + " image still exceeds the "@ + text::decimal(WIRE_TARGET_BYTES as nat)
        + " byte wire budget at "@ + text::decimal(size.0 as nat) + "x"@ + text::decimal(
        size.1 as nat,
    ) + "; crop it or convert it first"@
}

/// What a descent ends in: the first size with an encoding that fits, or a
/// refusal at the smallest.
pub open spec fn descent_ends(
    decoded: image::DynamicImage,
    tried: Seq<image::DynamicImage>,
    source_type: Seq<char>,
    result: Result<FittedView, Seq<char>>,
) -> bool {
    let longest = longest_edge(image_size(decoded));
    &&& is_descent(decoded, tried)
    &&& match rung(tried.last()) {
        Some(fitted) => result == Ok::<FittedView, Seq<char>>(fitted),
        None => edge_at(longest, (tried.len() - 1) as nat) <= MIN_WIRE_DIMENSION && result == Err::<
            FittedView,
            Seq<char>,
        >(too_large_text(source_type, image_size(tried.last()))),
    }
}

/// The view of what a fit came to.
pub open spec fn fit_view(r: Result<FittedImage, String>) -> Result<FittedView, Seq<char>> {
    match r {
        Ok(fitted) => Ok(fitted@),
        Err(e) => Err(e@),
    }
}

fn too_large(source_type: &str, size: (u32, u32)) -> (r: String)
    ensures
        r@ == too_large_text(source_type@, size),
{
    let mut e = source_type.to_owned();
    e.append(" image still exceeds the ");
    e.append(text::decimal_text(WIRE_TARGET_BYTES as u64).as_str());
    e.append(" byte wire budget at ");
    e.append(text::decimal_text(size.0 as u64).as_str());
    e.append("x");
    e.append(text::decimal_text(size.1 as u64).as_str());
    e.append("; crop it or convert it first");
    e
}

/// Goes down through the edge sizes until one of them encodes within the target.
pub fn encode_within_budget(decoded: &image::DynamicImage, source_type: &str) -> (r: Result<
    FittedImage,
    String,
>)
    ensures
        exists|tried: Seq<image::DynamicImage>| #[trigger]
            descent_ends(*decoded, tried, source_type@, fit_view(r)),
        r matches Ok(fitted) ==> fitted.bytes@.len() <= WIRE_TARGET_BYTES,
{
    let whole = dimensions(decoded);
    let longest: u32 = if whole.0 >= whole.1 {
        whole.0
    } else {
        whole.1
    };
    let mut edge: u32 = if longest < MAX_WIRE_DIMENSION {
        longest
    } else {
        MAX_WIRE_DIMENSION
    };
    let ghost mut tried: Seq<image::DynamicImage> = Seq::empty();
    loop
        invariant
            longest == longest_edge(image_size(*decoded)),
            edge == edge_at(longest, tried.len()),
            edge <= MAX_WIRE_DIMENSION,
            edge < longest ==> edge >= 1,
            forall|i: int|
                0 <= i < tried.len() ==> is_at_edge(
                    #[trigger] tried[i],
                    *decoded,
                    edge_at(longest, i as nat),
                ),
            forall|i: int|
                0 <= i < tried.len() ==> rung(#[trigger] tried[i]) is None && edge_at(
                    longest,
                    i as nat,
                ) > MIN_WIRE_DIMENSION,
        decreases edge,
    {
        let fitted;
        let size;
        if edge < longest {
            let scaled = resize_to(decoded, edge);
            fitted = encode_rung(&scaled);
            size = dimensions(&scaled);
            proof {
                tried = tried.push(scaled);
            }
        } else {
            fitted = encode_rung(decoded);
            size = dimensions(decoded);
            proof {
                tried = tried.push(*decoded);
            }
        }
        proof {
            assert(is_descent(*decoded, tried));
        }
        if let Some(f) = fitted {
            let r = Ok(f);
            proof {
                lemma_first_jpeg_fits(tried.last(), 0);
                assert(descent_ends(*decoded, tried, source_type@, fit_view(r)));
            }
            return r;
        }
        if edge <= MIN_WIRE_DIMENSION {
            let r = Err(too_large(source_type, size));
            proof {
                assert(descent_ends(*decoded, tried, source_type@, fit_view(r)));
            }
            return r;
        }
        let next: u32 = edge * 3 / 4;
        edge = if next >= MIN_WIRE_DIMENSION {
            next
        } else {
            MIN_WIRE_DIMENSION
        };
    }
}

// ---------------------------------------------------------------------------
// Preparing
// ---------------------------------------------------------------------------

/// An image block of bytes.
pub open spec fn base64_view(media_type: Seq<char>, bytes: Seq<u8>) -> BlockView {
    BlockView::Image { media_type, data: base64_form(bytes) }
}

fn base64_block(media_type: &str, bytes: &[u8]) -> (r: ContentBlock)
    requires
        bytes@.len() <= MAX_IMAGE_BYTES,
    ensures
        r@ == base64_view(media_type@, bytes@),
        r@->Image_data.len() == 4 * ((bytes@.len() + 2) / 3),
{
    proof {
        lemma_base64_len(bytes@);
    }
    ContentBlock::Image {
        source: ImageSource::Base64 {
            media_type: media_type.to_owned(),
            data: base64_encode(bytes),
        },
    }
}

/// What is said of too many pixels.
pub open spec fn pixel_limit_text(size: (u32, u32)) -> Seq<char> {
    "image is "@ + text::decimal(size.0 as nat) + "x"@ + text::decimal(size.1 as nat) + " ("@
        + text::decimal((size.0 as nat) * (size.1 as nat)) + " pixels), over the "@
        + text::decimal(MAX_DECODE_PIXELS as nat)
        + " pixel decode limit; downscale or crop it first"@
}

/// What is said of bytes that cannot be decoded.
pub open spec fn decode_error_text(e: DecodeError) -> Seq<char> {
    match e {
        DecodeError::Header(why) => "cannot read image header: "@ + why@,
        DecodeError::Pixels(why) => "cannot decode image: "@ + why@,
    }
}

impl DecodeError {
    /// What the error reads as.
    pub fn describe(&self) -> (r: String)
        ensures
            r@ == decode_error_text(*self),
    {
        match self {
            DecodeError::Header(why) => {
                let mut e = "cannot read image header: ".to_owned();
                e.append(why.as_str());
                e
            },
            DecodeError::Pixels(why) => {
                let mut e = "cannot decode image: ".to_owned();
                e.append(why.as_str());
                e
            },
        }
    }
}

/// What is done with image bytes.
#[verifier::ext_equal]
pub enum Plan {
    /// They are refused.
    Refuse(Seq<char>),
    /// They go out as they are.
    Keep(Seq<char>),
    /// They are decoded and fitted.
    Shrink(Seq<char>, (u32, u32)),
}

/// What is done with image bytes: unknown formats and too many bytes are
/// refused; what has no readable header, or is within both budgets, goes out as
/// it is; too many pixels are refused before anything is decoded.
pub open spec fn plan(bytes: Seq<u8>) -> Plan {
    match media_type_of(bytes) {
        None => Plan::Refuse("unsupported image format (expected png, jpeg, gif, or webp)"@),
        Some(media_type) => if bytes.len() > MAX_IMAGE_BYTES {
            Plan::Refuse(
                "image is "@ + text::decimal(bytes.len()) + " bytes, over the "@ + text::decimal(
                    MAX_IMAGE_BYTES as nat,
                ) + " byte limit"@,
            )
        } else {
            match header_size(bytes) {
                None => Plan::Keep(media_type),
                Some(size) => if bytes.len() <= WIRE_TARGET_BYTES && size.0 <= MAX_WIRE_DIMENSION
                    && size.1 <= MAX_WIRE_DIMENSION {
                    Plan::Keep(media_type)
                } else if (size.0 as nat) * (size.1 as nat) > MAX_DECODE_PIXELS {
                    Plan::Refuse(pixel_limit_text(size))
                } else {
                    Plan::Shrink(media_type, size)
                },
            }
        },
    }
}

/// Whether a result is what decoded pixels, or the failure to decode them, come
/// to.
pub open spec fn shrunk(
    decoded: Result<image::DynamicImage, DecodeError>,
    media_type: Seq<char>,
    size: (u32, u32),
    result: Result<PreparedView, Seq<char>>,
) -> bool {
    match decoded {
        Err(e) => result == Err::<PreparedView, Seq<char>>(decode_error_text(e)),
        Ok(image) => exists|tried: Seq<image::DynamicImage>, fit: Result<FittedView, Seq<char>>|
            #[trigger] descent_ends(image, tried, media_type, fit) && result == fit_result(fit, size),
    }
}

/// What a fit makes of an image of a size.
pub open spec fn fit_result(fit: Result<FittedView, Seq<char>>, size: (u32, u32)) -> Result<
    PreparedView,
    Seq<char>,
> {
    match fit {
        Ok(f) => Ok(
            PreparedView {
                block: base64_view(f.media_type, f.bytes),
                resized: Some(Resized { from: size, to: f.dimensions }),
            },
        ),
        Err(e) => Err(e),
    }
}

/// The view of what a preparation came to.
pub open spec fn prepared_view(r: Result<PreparedImage, String>) -> Result<
    PreparedView,
    Seq<char>,
> {
    match r {
        Ok(p) => Ok(p@),
        Err(e) => Err(e@),
    }
}

/// Fits decoded pixels to the wire, or says why they could not be decoded.
/// `size` is what the header said.
pub fn shrink_decoded(
    decoded: &Result<image::DynamicImage, DecodeError>,
    media_type: &str,
    size: (u32, u32),
) -> (r: Result<PreparedImage, String>)
    ensures
        shrunk(*decoded, media_type@, size, prepared_view(r)),
        r matches Ok(p) ==> p.block@->Image_data.len() <= MAX_IMAGE_BYTES,
{
    match decoded {
        Err(e) => Err(e.describe()),
        Ok(image) => {
            let fit = encode_within_budget(image, media_type);
            let ghost view = fit_view(fit);
            match fit {
                Err(e) => Err(e),
                Ok(fitted) => {
                    let block = base64_block(fitted.media_type, fitted.bytes.as_slice());
                    let r = Ok(
                        PreparedImage {
                            block,
                            resized: Some(Resized { from: size, to: fitted.dimensions }),
                        },
                    );
                    proof {
                        assert(prepared_view(r) == fit_result(view, size));
                    }
                    r
                },
            }
        },
    }
}

/// Whether a result is what image bytes come to.
pub open spec fn is_prepared(bytes: Seq<u8>, result: Result<PreparedView, Seq<char>>) -> bool {
    match plan(bytes) {
        Plan::Refuse(e) => result == Err::<PreparedView, Seq<char>>(e),
        Plan::Keep(media_type) => result == Ok::<PreparedView, Seq<char>>(
            PreparedView { block: base64_view(media_type, bytes), resized: None },
        ),
        Plan::Shrink(media_type, size) => is_shrunk(bytes, media_type, size, result),
    }
}

/// Whether a result is what bytes of a size come to: they are decoded within the
/// allocation limit, to whatever pixels.
pub open spec fn is_shrunk(
    bytes: Seq<u8>,
    media_type: Seq<char>,
    size: (u32, u32),
    result: Result<PreparedView, Seq<char>>,
) -> bool {
    exists|decoded: Result<image::DynamicImage, DecodeError>|
        decoded is Ok == decodes(bytes, MAX_DECODE_ALLOC_BYTES) && (decoded matches Ok(image)
            ==> image_size(image) == size) && #[trigger] shrunk(
            decoded,
            media_type,
            size,
            result,
        )
}

fn pixel_limit(width: u32, height: u32, pixels: u64) -> (r: String)
    requires
        pixels == width * height,
    ensures
        r@ == pixel_limit_text((width, height)),
{
    let mut e = "image is ".to_owned();
    e.append(text::decimal_text(width as u64).as_str());
    e.append("x");
    e.append(text::decimal_text(height as u64).as_str());
    e.append(" (");
    e.append(text::decimal_text(pixels).as_str());
    e.append(" pixels), over the ");
    e.append(text::decimal_text(MAX_DECODE_PIXELS).as_str());
    e.append(" pixel decode limit; downscale or crop it first");
    e
}

/// Decodes image bytes whose header says these dimensions; too many pixels are
/// refused before anything is decoded.
fn decode_guarded(bytes: &[u8], width: u32, height: u32) -> (r: Result<
    Result<image::DynamicImage, DecodeError>,
    String,
>)
    requires
        header_size(bytes@) == Some((width, height)),
    ensures
        match r {
            Err(e) => (width as nat) * (height as nat) > MAX_DECODE_PIXELS && e@
                == pixel_limit_text((width, height)),
            Ok(decoded) => (width as nat) * (height as nat) <= MAX_DECODE_PIXELS && decoded is Ok
                == decodes(bytes@, MAX_DECODE_ALLOC_BYTES) && (decoded matches Ok(image) ==> image_size(image) == (width, height)),
        },
{
    proof {
        assert(width * height <= 0xffff_ffff * 0xffff_ffff) by (nonlinear_arith)
            requires
                width <= 0xffff_ffff,
                height <= 0xffff_ffff,
        ;
        assert(width * height >= 0) by (nonlinear_arith)
            requires
                width >= 0,
                height >= 0,
        ;
    }
    let pixels: u64 = (width as u64) * (height as u64);
    if pixels > MAX_DECODE_PIXELS {
        return Err(pixel_limit(width, height, pixels));
    }
    Ok(decode_pixels(bytes, MAX_DECODE_ALLOC_BYTES))
}

/// Validates image bytes and fits them to the wire, with a record of any
/// downscale. What goes out of a downscale is no longer in base64 than
/// `MAX_IMAGE_BYTES`.
pub fn prepare_image_from_bytes(bytes: &[u8]) -> (r: Result<PreparedImage, String>)
    ensures
        is_prepared(bytes@, prepared_view(r)),
        r matches Ok(p) ==> (p.resized is Some ==> p.block@->Image_data.len() <= MAX_IMAGE_BYTES),
{
    let media_type = match detect_media_type(bytes) {
        Some(media_type) => media_type,
        None => {
            return Err(
                "unsupported image format (expected png, jpeg, gif, or webp)".to_owned(),
            );
        },
    };
    if bytes.len() > MAX_IMAGE_BYTES {
        let mut e = "image is ".to_owned();
        e.append(text::decimal_text(bytes.len() as u64).as_str());
        e.append(" bytes, over the ");
        e.append(text::decimal_text(MAX_IMAGE_BYTES as u64).as_str());
        e.append(" byte limit");
        return Err(e);
    }
    let (width, height) = match header_dimensions(bytes) {
        Some(size) => size,
        None => {
            return Ok(PreparedImage { block: base64_block(media_type, bytes), resized: None });
        },
    };
    if bytes.len() <= WIRE_TARGET_BYTES && width <= MAX_WIRE_DIMENSION && height
        <= MAX_WIRE_DIMENSION {
        return Ok(PreparedImage { block: base64_block(media_type, bytes), resized: None });
    }
    let decoded = match decode_guarded(bytes, width, height) {
        Ok(decoded) => decoded,
        Err(e) => {
            return Err(e);
        },
    };
    let r = shrink_decoded(&decoded, media_type, (width, height));
    proof {
        assert(plan(bytes@) == Plan::Shrink(media_type@, (width, height)));
        assert(is_shrunk(bytes@, media_type@, (width, height), prepared_view(r)));
    }
    r
}

/// Validates image bytes and fits them to the wire.
pub fn image_block_from_bytes(bytes: &[u8]) -> (r: Result<ContentBlock, String>)
    ensures
        match r {
            Ok(block) => exists|resized: Option<Resized>| #[trigger]
                is_prepared(
                    bytes@,
                    Ok::<PreparedView, Seq<char>>(PreparedView { block: block@, resized }),
                ),
            Err(e) => is_prepared(bytes@, Err::<PreparedView, Seq<char>>(e@)),
        },
{
    match prepare_image_from_bytes(bytes) {
        Ok(prepared) => {
            let ghost resized = prepared.resized;
            let block = prepared.block;
            proof {
                assert(is_prepared(
                    bytes@,
                    Ok::<PreparedView, Seq<char>>(PreparedView { block: block@, resized }),
                ));
            }
            Ok(block)
        },
        Err(e) => Err(e),
    }
}

// ---------------------------------------------------------------------------
// Laws
// ---------------------------------------------------------------------------

proof fn lemma_edges_fall(longest: u32, n: nat)
    ensures
        edge_at(longest, n) <= MAX_WIRE_DIMENSION,
    decreases n,
{
    if n > 0 {
        lemma_edges_fall(longest, (n - 1) as nat);
    }
}

/// Whatever a descent ends in, what goes out is within the byte target and
/// within the largest edge, no larger than the image was and of its aspect
/// ratio.
pub proof fn law_fitted_images_stay_within_the_wire(
    decoded: image::DynamicImage,
    tried: Seq<image::DynamicImage>,
    source_type: Seq<char>,
    fitted: FittedView,
)
    requires
        descent_ends(decoded, tried, source_type, Ok::<FittedView, Seq<char>>(fitted)),
    ensures
        fitted.bytes.len() <= WIRE_TARGET_BYTES,
        fitted.dimensions.0 <= MAX_WIRE_DIMENSION,
        fitted.dimensions.1 <= MAX_WIRE_DIMENSION,
        longest_edge(fitted.dimensions) <= longest_edge(image_size(decoded)),
        keeps_aspect(image_size(decoded), fitted.dimensions),
        fitted.media_type == "image/png"@ || fitted.media_type == "image/jpeg"@,
{
    let n = tried.len() - 1;
    let longest = longest_edge(image_size(decoded));
    lemma_edges_fall(longest, n as nat);
    lemma_first_jpeg_fits(tried[n], 0);
    assert(is_at_edge(tried[n], decoded, edge_at(longest, n as nat)));
    assert(tried.last() == tried[n]);
}

proof fn lemma_first_jpeg_fits(image: image::DynamicImage, k: int)
    ensures
        first_jpeg(image, k) matches Some(bytes) ==> bytes.len() <= WIRE_TARGET_BYTES,
    decreases 4 - k,
{
    if 0 <= k < 4 {
        lemma_first_jpeg_fits(image, k + 1);
    }
}

/// An image over a budget that decodes gets onto the wire, downscaled within its
/// bounds, or is refused because none of its sizes fits: a decoding error is not
/// what it comes to.
pub proof fn law_what_decodes_is_fitted(
    bytes: Seq<u8>,
    media_type: Seq<char>,
    size: (u32, u32),
    result: Result<PreparedView, Seq<char>>,
)
    requires
        plan(bytes) == Plan::Shrink(media_type, size),
        decodes(bytes, MAX_DECODE_ALLOC_BYTES),
        is_prepared(bytes, result),
    ensures
        exists|
            image: image::DynamicImage,
            tried: Seq<image::DynamicImage>,
            fit: Result<FittedView, Seq<char>>,
        | #[trigger]
            descent_ends(image, tried, media_type, fit) && image_size(image) == size && result
                == fit_result(fit, size),
{
}

/// A PNG that fits is kept at the size it was tried at, whatever the JPEG
/// encodings would be.
pub proof fn law_a_png_that_fits_is_kept(image: image::DynamicImage, bytes: Seq<u8>)
    requires
        png_form(image) == Some(bytes),
        bytes.len() <= WIRE_TARGET_BYTES,
    ensures
        rung(image) == Some(
            FittedView { bytes, media_type: "image/png"@, dimensions: image_size(image) },
        ),
{
}

/// Bytes within both budgets go out as they came.
pub proof fn law_small_images_go_out_untouched(
    bytes: Seq<u8>,
    media_type: Seq<char>,
    size: (u32, u32),
    result: Result<PreparedView, Seq<char>>,
)
    requires
        media_type_of(bytes) == Some(media_type),
        header_size(bytes) == Some(size),
        bytes.len() <= WIRE_TARGET_BYTES,
        size.0 <= MAX_WIRE_DIMENSION,
        size.1 <= MAX_WIRE_DIMENSION,
        is_prepared(bytes, result),
    ensures
        result == Ok::<PreparedView, Seq<char>>(
            PreparedView { block: base64_view(media_type, bytes), resized: None },
        ),
{
}

// ---------------------------------------------------------------------------
// What is recognised, refused and tried
// ---------------------------------------------------------------------------

/// A format goes by the bytes that a file begins with.
pub proof fn law_a_format_goes_by_its_first_bytes(bytes: Seq<u8>)
    ensures
        ({
            let png = bytes.len() >= 8 && bytes[0] == 0x89 && bytes[1] == 0x50 && bytes[2] == 0x4e
                && bytes[3] == 0x47 && bytes[4] == 0x0d && bytes[5] == 0x0a && bytes[6] == 0x1a
                && bytes[7] == 0x0a;
            let jpeg = bytes.len() >= 3 && bytes[0] == 0xff && bytes[1] == 0xd8 && bytes[2] == 0xff;
            let gif = bytes.len() >= 6 && bytes[0] == 0x47 && bytes[1] == 0x49 && bytes[2] == 0x46
                && bytes[3] == 0x38 && (bytes[4] == 0x37 || bytes[4] == 0x39) && bytes[5] == 0x61;
            let webp = bytes.len() >= 12 && bytes[0] == 0x52 && bytes[1] == 0x49 && bytes[2] == 0x46
                && bytes[3] == 0x46 && bytes[8] == 0x57 && bytes[9] == 0x45 && bytes[10] == 0x42
                && bytes[11] == 0x50;
            &&& png ==> media_type_of(bytes) == Some("image/png"@)
            &&& jpeg ==> media_type_of(bytes) == Some("image/jpeg"@)
            &&& gif ==> media_type_of(bytes) == Some("image/gif"@)
            &&& webp ==> media_type_of(bytes) == Some("image/webp"@)
            &&& !png && !jpeg && !gif && !webp ==> media_type_of(bytes) is None
        }),
{
    lemma_begins(bytes, png_magic());
    lemma_begins(bytes, jpeg_magic());
    lemma_begins(bytes, gif_magic(0x37));
    lemma_begins(bytes, gif_magic(0x39));
    if bytes.len() >= 12 {
        let riff = bytes.subrange(0, 4);
        let kind = bytes.subrange(8, 12);
        assert(riff =~= seq![bytes[0], bytes[1], bytes[2], bytes[3]]);
        assert(kind =~= seq![bytes[8], bytes[9], bytes[10], bytes[11]]);
        let want = seq![0x52u8, 0x49, 0x46, 0x46];
        let name = seq![0x57u8, 0x45, 0x42, 0x50];
        if is_webp(bytes) {
            assert(riff[0] == want[0] && riff[1] == want[1] && riff[2] == want[2] && riff[3]
                == want[3]);
            assert(kind[0] == name[0] && kind[1] == name[1] && kind[2] == name[2] && kind[3]
                == name[3]);
        }
        if bytes[0] == 0x52 && bytes[1] == 0x49 && bytes[2] == 0x46 && bytes[3] == 0x46 && bytes[8]
            == 0x57 && bytes[9] == 0x45 && bytes[10] == 0x42 && bytes[11] == 0x50 {
            assert(riff =~= want);
            assert(kind =~= name);
        }
    }
}

proof fn lemma_begins(bytes: Seq<u8>, magic: Seq<u8>)
    ensures
        begins(bytes, magic) <==> bytes.len() >= magic.len() && forall|i: int|
            0 <= i < magic.len() ==> bytes[i] == #[trigger] magic[i],
{
    if begins(bytes, magic) {
        assert forall|i: int| 0 <= i < magic.len() implies bytes[i] == #[trigger] magic[i] by {
            assert(bytes.take(magic.len() as int)[i] == bytes[i]);
        }
    }
    if bytes.len() >= magic.len() && forall|i: int|
        0 <= i < magic.len() ==> bytes[i] == #[trigger] magic[i] {
        assert(bytes.take(magic.len() as int) =~= magic);
    }
}

/// What is done about a file: one of no known format, or of more than 5242880 bytes, is
/// refused. One whose size cannot be told, or that is within 3932160 bytes and 2000
/// pixels either way, goes out as it is. One of more than 64000000 pixels is refused
/// before it is decoded. The rest is shrunk.
pub proof fn law_what_is_done_about_an_image(bytes: Seq<u8>)
    ensures
        ({
            let size = header_size(bytes)->0;
            if media_type_of(bytes) is None || bytes.len() > 5_242_880 {
                plan(bytes) is Refuse
            } else if header_size(bytes) is None {
                plan(bytes) == Plan::Keep(media_type_of(bytes)->0)
            } else if bytes.len() <= 3_932_160 && size.0 <= 2_000 && size.1 <= 2_000 {
                plan(bytes) == Plan::Keep(media_type_of(bytes)->0)
            } else if size.0 * size.1 > 64_000_000 {
                plan(bytes) is Refuse
            } else {
                plan(bytes) == Plan::Shrink(media_type_of(bytes)->0, size)
            }
        }),
{
    if header_size(bytes) is Some {
        let size = header_size(bytes)->0;
        assert((size.0 as nat) * (size.1 as nat) == size.0 * size.1);
    }
}

/// An image goes out as PNG where that fits, else as JPEG of the best quality of 80,
/// 60, 40 and 20 that fits; where none does, it does not fit at its size.
pub proof fn law_the_best_form_that_fits(image: image::DynamicImage)
    ensures
        ({
            let fits = |form: Option<Seq<u8>>| form is Some && form->0.len() <= 3_932_160;
            let jpeg = |quality: u8|
                Some(
                    FittedView {
                        bytes: jpeg_form(image, quality)->0,
                        media_type: "image/jpeg"@,
                        dimensions: image_size(image),
                    },
                );
            if fits(png_form(image)) {
                rung(image) == Some(
                    FittedView {
                        bytes: png_form(image)->0,
                        media_type: "image/png"@,
                        dimensions: image_size(image),
                    },
                )
            } else if fits(jpeg_form(image, 80)) {
                rung(image) == jpeg(80)
            } else if fits(jpeg_form(image, 60)) {
                rung(image) == jpeg(60)
            } else if fits(jpeg_form(image, 40)) {
                rung(image) == jpeg(40)
            } else if fits(jpeg_form(image, 20)) {
                rung(image) == jpeg(20)
            } else {
                rung(image) is None
            }
        }),
{
    reveal_with_fuel(first_jpeg, 5);
    assert(quality_steps()[0] == 80);
    assert(quality_steps()[1] == 60);
    assert(quality_steps()[2] == 40);
    assert(quality_steps()[3] == 20);
}

/// The edges that are tried begin at the image's own, at most 2000, and each next one
/// is three quarters of the one before it, at least 256.
pub proof fn law_the_edges_that_are_tried(longest: u32, n: nat)
    ensures
        edge_at(longest, 0) == (if longest < 2_000 {
            longest
        } else {
            2_000
        }),
        edge_at(longest, n + 1) == (if edge_at(longest, n) * 3 / 4 >= 256 {
            edge_at(longest, n) * 3 / 4
        } else {
            256
        }),
        longest >= 256 ==> 256 <= edge_at(longest, n) <= 2_000,
    decreases n,
{
    if n > 0 {
        law_the_edges_that_are_tried(longest, (n - 1) as nat);
    }
}

/// What goes out of a file that is not shrunk is its own bytes under its own format,
/// and nothing says that it was resized.
pub proof fn law_a_kept_image_is_the_file(
    bytes: Seq<u8>,
    media_type: Seq<char>,
    result: Result<PreparedView, Seq<char>>,
)
    requires
        plan(bytes) == Plan::Keep(media_type),
        is_prepared(bytes, result),
    ensures
        result == Ok::<PreparedView, Seq<char>>(
            PreparedView {
                block: BlockView::Image { media_type, data: base64_form(bytes) },
                resized: None,
            },
        ),
        Some(media_type) == media_type_of(bytes),
{
}

/// What goes out of an image that was shrunk is what was fitted, with the size that it
/// had and the one that it has; an image that could not be decoded or fitted says why.
pub proof fn law_a_shrunk_image_says_so(
    fit: Result<FittedView, Seq<char>>,
    size: (u32, u32),
    why: DecodeError,
    media_type: Seq<char>,
    result: Result<PreparedView, Seq<char>>,
)
    ensures
        fit matches Ok(f) ==> fit_result(fit, size) == Ok::<PreparedView, Seq<char>>(
            PreparedView {
                block: BlockView::Image { media_type: f.media_type, data: base64_form(f.bytes) },
                resized: Some(Resized { from: size, to: f.dimensions }),
            },
        ),
        fit matches Err(e) ==> fit_result(fit, size) == Err::<PreparedView, Seq<char>>(e),
        shrunk(Err(why), media_type, size, result) ==> result == Err::<PreparedView, Seq<char>>(
            match why {
                DecodeError::Header(words) => "cannot read image header: "@ + words@,
                DecodeError::Pixels(words) => "cannot decode image: "@ + words@,
            },
        ),
{
}

/// A scaled image fills the edge that it was scaled to and is no larger, and an image that
/// is small enough is tried as it is.
pub proof fn law_what_is_tried_at_an_edge(
    decoded: image::DynamicImage,
    tried: Seq<image::DynamicImage>,
    i: int,
)
    requires
        is_descent(decoded, tried),
        0 <= i < tried.len(),
    ensures
        ({
            let longest = longest_edge(image_size(decoded));
            let edge = edge_at(longest, i as nat);
            let size = image_size(tried[i]);
            &&& edge >= longest ==> tried[i] == decoded
            &&& edge < longest ==> 1 <= size.0 <= edge && 1 <= size.1 <= edge && (size.0 == edge
                || size.1 == edge)
            &&& i < tried.len() - 1 ==> rung(tried[i]) is None && edge > 256
        }),
{
    assert(is_at_edge(
        tried[i],
        decoded,
        edge_at(longest_edge(image_size(decoded)), i as nat),
    ));
    if i < tried.len() - 1 {
        assert(rung(tried[i]) is None);
    }
}

/// What is said of an image that is too large to decode, or that fits at no size.
pub proof fn law_what_is_said_of_a_large_image(
    bytes: Seq<u8>,
    size: (u32, u32),
    source_type: Seq<char>,
)
    ensures
        too_large_text(source_type, size) == source_type + " image still exceeds the "@
            + text::decimal(3_932_160) + " byte wire budget at "@ + text::decimal(size.0 as nat)
            + "x"@ + text::decimal(size.1 as nat) + "; crop it or convert it first"@,
        pixel_limit_text(size) == "image is "@ + text::decimal(size.0 as nat) + "x"@
            + text::decimal(size.1 as nat) + " ("@ + text::decimal(
            (size.0 as nat) * (size.1 as nat),
        ) + " pixels), over the "@ + text::decimal(64_000_000)
            + " pixel decode limit; downscale or crop it first"@,
        media_type_of(bytes) is None ==> plan(bytes) == Plan::Refuse(
            "unsupported image format (expected png, jpeg, gif, or webp)"@,
        ),
        media_type_of(bytes) is Some && bytes.len() > 5_242_880 ==> plan(bytes) == Plan::Refuse(
            "image is "@ + text::decimal(bytes.len()) + " bytes, over the "@ + text::decimal(
                5_242_880,
            ) + " byte limit"@,
        ),
{
}

} // verus!
