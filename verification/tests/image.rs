use base64::engine::general_purpose::STANDARD;
use base64::Engine;

use kloop_core::image::detect_media_type;
use kloop_core::image::encode_rung;
use kloop_core::image::encode_within_budget;
use kloop_core::image::image_block_from_bytes;
use kloop_core::image::prepare_image_from_bytes;
use kloop_core::image::shrink_decoded;
use kloop_core::image::DecodeError;
use kloop_core::image::PreparedImage;
use kloop_core::image::Resized;
use kloop_core::image::MAX_IMAGE_BYTES;
use kloop_core::image::WIRE_TARGET_BYTES;
use kloop_core::protocol::ContentBlock;
use kloop_core::protocol::ImageSource;

const PNG: &[u8] = &[0x89, b'P', b'N', b'G', 0x0D, 0x0A, 0x1A, 0x0A, 0, 0];
const JPEG: &[u8] = &[0xFF, 0xD8, 0xFF, 0xE0, 0, 0];
const GIF: &[u8] = b"GIF89a\x00\x00";
const WEBP: &[u8] = b"RIFF\x00\x00\x00\x00WEBP\x00\x00";

fn base64_block(media_type: &str, bytes: &[u8]) -> ContentBlock {
    ContentBlock::Image {
        source: ImageSource::Base64 {
            media_type: media_type.to_string(),
            data: STANDARD.encode(bytes),
        },
    }
}

fn banded_png(width: u32, height: u32) -> Vec<u8> {
    let buffer = image::RgbImage::from_fn(width, height, |x, y| {
        image::Rgb([(x / 256) as u8, (y / 256) as u8, 128])
    });
    let mut bytes = Vec::new();
    image::DynamicImage::ImageRgb8(buffer)
        .write_to(
            &mut std::io::Cursor::new(&mut bytes),
            image::ImageFormat::Png,
        )
        .unwrap();
    bytes
}

/// Pixels that neither PNG nor a good JPEG can compress.
fn noise(width: u32, height: u32) -> image::DynamicImage {
    let mut state: u32 = 0x1234_5678;
    let buffer = image::RgbImage::from_fn(width, height, |_, _| {
        let mut next = || {
            state ^= state << 13;
            state ^= state >> 17;
            state ^= state << 5;
            (state >> 8) as u8
        };
        image::Rgb([next(), next(), next()])
    });
    image::DynamicImage::ImageRgb8(buffer)
}

fn data_of(block: &ContentBlock) -> (String, Vec<u8>) {
    let ContentBlock::Image {
        source: ImageSource::Base64 { media_type, data },
    } = block
    else {
        panic!("a prepared image is a base64 image block");
    };
    (media_type.clone(), STANDARD.decode(data).unwrap())
}

fn header_dimensions(bytes: &[u8]) -> Option<(u32, u32)> {
    image::ImageReader::new(std::io::Cursor::new(bytes))
        .with_guessed_format()
        .ok()?
        .into_dimensions()
        .ok()
}

fn decoded_dimensions(block: &ContentBlock) -> (u32, u32) {
    let (_, bytes) = data_of(block);
    header_dimensions(&bytes).expect("a prepared image has a readable header")
}

#[test]
fn detects_each_supported_format() {
    assert_eq!(detect_media_type(PNG), Some("image/png"));
    assert_eq!(detect_media_type(JPEG), Some("image/jpeg"));
    assert_eq!(detect_media_type(b"GIF87a\x00"), Some("image/gif"));
    assert_eq!(detect_media_type(GIF), Some("image/gif"));
    assert_eq!(detect_media_type(WEBP), Some("image/webp"));
}

#[test]
fn rejects_unknown_and_truncated() {
    assert_eq!(detect_media_type(b"not an image"), None);
    assert_eq!(detect_media_type(b""), None);
    assert_eq!(detect_media_type(b"RIFF\x00\x00\x00\x00WAVE"), None);
    assert_eq!(detect_media_type(b"RIFF"), None);
}

#[test]
fn every_magic_is_needed_whole() {
    assert_eq!(detect_media_type(&PNG[..7]), None);
    assert_eq!(detect_media_type(&JPEG[..2]), None);
    assert_eq!(detect_media_type(b"GIF88a"), None);
    assert_eq!(detect_media_type(b"GIF89"), None);
    assert_eq!(detect_media_type(&WEBP[..11]), None);
}

#[test]
fn builds_base64_block_from_png() {
    let block = image_block_from_bytes(PNG).unwrap();
    assert_eq!(
        block,
        ContentBlock::Image {
            source: ImageSource::Base64 {
                media_type: "image/png".into(),
                data: STANDARD.encode(PNG),
            },
        }
    );
}

#[test]
fn rejects_unsupported_format() {
    assert!(image_block_from_bytes(b"plain text").is_err());
    assert_eq!(
        image_block_from_bytes(b"plain text").unwrap_err(),
        "unsupported image format (expected png, jpeg, gif, or webp)"
    );
}

#[test]
fn rejects_oversized_image() {
    let mut big = PNG.to_vec();
    big.resize(MAX_IMAGE_BYTES + 1, 0);
    assert!(image_block_from_bytes(&big).is_err());
    assert_eq!(
        image_block_from_bytes(&big).unwrap_err(),
        "image is 5242881 bytes, over the 5242880 byte limit"
    );
}

#[test]
fn an_image_inside_both_budgets_goes_out_untouched() {
    let png = banded_png(64, 48);
    let prepared = prepare_image_from_bytes(&png).unwrap();
    assert_eq!(
        prepared,
        PreparedImage {
            block: base64_block("image/png", &png),
            resized: None,
        }
    );
}

#[test]
fn a_pixel_oversized_image_is_downscaled_even_when_its_bytes_are_small() {
    let png = banded_png(2100, 1400);
    assert!(png.len() <= WIRE_TARGET_BYTES);

    let prepared = prepare_image_from_bytes(&png).unwrap();
    assert_eq!(
        prepared.resized,
        Some(Resized {
            from: (2100, 1400),
            to: (2000, 1333),
        })
    );
    assert_eq!(decoded_dimensions(&prepared.block), (2000, 1333));
    assert_eq!(data_of(&prepared.block).0, "image/png");
}

#[test]
fn a_smaller_image_is_never_upscaled_to_the_budget() {
    let png = banded_png(2100, 525);
    let prepared = prepare_image_from_bytes(&png).unwrap();
    assert_eq!(decoded_dimensions(&prepared.block), (2000, 500));

    let wide = banded_png(1200, 300);
    let untouched = prepare_image_from_bytes(&wide).unwrap();
    assert_eq!(untouched.resized, None);
    assert_eq!(decoded_dimensions(&untouched.block), (1200, 300));
}

#[test]
fn a_decompression_bomb_is_refused_from_its_header() {
    const BOMB: &[u8] = &[
        0x89, 0x50, 0x4E, 0x47, 0x0D, 0x0A, 0x1A, 0x0A, 0x00, 0x00, 0x00, 0x0D, 0x49, 0x48, 0x44,
        0x52, 0x00, 0x00, 0x9C, 0x40, 0x00, 0x00, 0x9C, 0x40, 0x08, 0x02, 0x00, 0x00, 0x00, 0xDE,
        0x6E, 0x99, 0x52, 0x00, 0x00, 0x00, 0x0B, 0x49, 0x44, 0x41, 0x54, 0x78, 0x9C, 0x63, 0x60,
        0x40, 0x05, 0x00, 0x00, 0x10, 0x00, 0x01, 0x39, 0xBD, 0x8F, 0x65, 0x00, 0x00, 0x00, 0x00,
        0x49, 0x45, 0x4E, 0x44, 0xAE, 0x42, 0x60, 0x82,
    ];
    assert_eq!(header_dimensions(BOMB), Some((40000, 40000)));
    let error = prepare_image_from_bytes(BOMB).unwrap_err().to_string();
    assert!(error.contains("40000x40000"), "{error}");
    assert!(error.contains("pixel decode limit"), "{error}");
    assert_eq!(
        error,
        "image is 40000x40000 (1600000000 pixels), over the 64000000 pixel decode limit; downscale or crop it first"
    );
}

#[test]
fn image_data_is_padded_standard_base64() {
    let block = image_block_from_bytes(PNG).unwrap();
    let ContentBlock::Image {
        source: ImageSource::Base64 { data, .. },
    } = &block
    else {
        panic!("a prepared image is a base64 image block");
    };
    assert_eq!(data, "iVBORw0KGgoAAA==");
}

#[test]
fn an_unreadable_header_falls_back_to_sending_the_bytes() {
    let prepared = prepare_image_from_bytes(JPEG).unwrap();
    assert_eq!(
        prepared,
        PreparedImage {
            block: base64_block("image/jpeg", JPEG),
            resized: None,
        }
    );
}

#[test]
fn noise_falls_through_to_jpeg_within_the_target() {
    let image = noise(1600, 1600);
    let fitted = encode_rung(&image).unwrap();
    assert_eq!(fitted.media_type, "image/jpeg");
    assert_eq!(fitted.dimensions, (1600, 1600));
    assert!(fitted.bytes.len() <= WIRE_TARGET_BYTES);
    assert_eq!(detect_media_type(&fitted.bytes), Some("image/jpeg"));
}

#[test]
fn an_image_with_alpha_can_become_a_jpeg() {
    let image = image::DynamicImage::ImageRgba8(noise(1300, 1300).to_rgba8());
    let fitted = encode_within_budget(&image, "image/png").unwrap();
    assert_eq!(fitted.media_type, "image/jpeg");
    assert!(fitted.bytes.len() <= WIRE_TARGET_BYTES);
}

#[test]
fn an_image_without_pixels_fits_nowhere() {
    let empty = image::DynamicImage::new_rgb8(0, 0);
    assert_eq!(encode_rung(&empty), None);
    assert_eq!(
        encode_within_budget(&empty, "image/png").unwrap_err(),
        "image/png image still exceeds the 3932160 byte wire budget at 0x0; crop it or convert it first"
    );
}

#[test]
fn what_goes_out_of_a_downscale_is_within_the_tightest_ceiling() {
    let decoded = Ok(noise(2400, 900));
    let prepared = shrink_decoded(&decoded, "image/png", (2400, 900)).unwrap();
    let ContentBlock::Image {
        source: ImageSource::Base64 { media_type, data },
    } = &prepared.block
    else {
        panic!("a prepared image is a base64 image block");
    };
    assert_eq!(media_type, "image/jpeg");
    assert!(data.len() <= MAX_IMAGE_BYTES);
    let resized = prepared.resized.unwrap();
    assert_eq!(resized.from, (2400, 900));
    assert_eq!(resized.to, (2000, 750));
    assert_eq!(decoded_dimensions(&prepared.block), resized.to);
}

#[test]
fn a_failure_to_decode_says_so() {
    let failed = Err(DecodeError::Pixels("bad huffman code".into()));
    assert_eq!(
        shrink_decoded(&failed, "image/jpeg", (9, 9)).unwrap_err(),
        "cannot decode image: bad huffman code"
    );
    let failed = Err(DecodeError::Header("unexpected end".into()));
    assert_eq!(
        shrink_decoded(&failed, "image/jpeg", (9, 9)).unwrap_err(),
        "cannot read image header: unexpected end"
    );
    // A real file that cannot be decoded: a large header, and no pixels.
    let mut png = banded_png(2100, 64);
    png.truncate(60);
    let error = prepare_image_from_bytes(&png).unwrap_err();
    assert!(error.starts_with("cannot decode image: "), "{error}");
}
