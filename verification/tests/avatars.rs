use ankiquest::avatars::{
    etag, fits, is_unchanged, normalize, square, Avatars, PictureError, MAX_DECODED, MAX_DIMENSION,
    MAX_UPLOAD, SIZE,
};
use ankiquest::config::{Config, UserConfig};
use image::{DynamicImage, GenericImageView, ImageFormat, Rgb, RgbImage};
use std::io::Cursor;

fn encoded(image: RgbImage, format: ImageFormat) -> Vec<u8> {
    let mut output = Cursor::new(Vec::new());
    DynamicImage::ImageRgb8(image)
        .write_to(&mut output, format)
        .unwrap();
    output.into_inner()
}

fn sample(format: ImageFormat) -> Vec<u8> {
    encoded(RgbImage::from_pixel(12, 8, Rgb([20, 80, 180])), format)
}

#[test]
fn png_and_jpeg_become_small_square_pngs_with_centered_content() {
    for format in [ImageFormat::Png, ImageFormat::Jpeg] {
        let input = RgbImage::from_fn(12, 8, |x, _| {
            if (2..10).contains(&x) {
                Rgb([10, 200, 30])
            } else {
                Rgb([250, 10, 10])
            }
        });
        let output = normalize(&encoded(input, format)).unwrap();
        assert_eq!(image::guess_format(&output).unwrap(), ImageFormat::Png);
        let decoded = image::load_from_memory(&output).unwrap();
        assert_eq!(decoded.dimensions(), (SIZE, SIZE));
        let center = decoded.get_pixel(SIZE / 2, SIZE / 2);
        assert!(center[1] > 150 && center[0] < 60);
        assert!(output.len() < MAX_UPLOAD);
    }
}

#[test]
fn invalid_unsupported_truncated_and_oversized_images_are_rejected() {
    for bytes in [
        Vec::new(),
        b"<svg xmlns='http://www.w3.org/2000/svg'><script>alert(1)</script></svg>".to_vec(),
        b"GIF89a".to_vec(),
        sample(ImageFormat::Png)[..20].to_vec(),
        vec![0; MAX_UPLOAD + 1],
        encoded(RgbImage::new(MAX_DIMENSION + 1, 1), ImageFormat::Png),
        encoded(RgbImage::new(1, MAX_DIMENSION + 1), ImageFormat::Png),
    ] {
        assert!(normalize(&bytes).is_err());
    }
}

#[test]
fn jpeg_orientation_is_applied_and_original_metadata_is_discarded() {
    let image = RgbImage::from_fn(16, 16, |x, _| {
        if x < 8 {
            Rgb([250, 10, 10])
        } else {
            Rgb([10, 10, 250])
        }
    });
    let jpeg = encoded(image, ImageFormat::Jpeg);
    // Little-endian TIFF IFD containing orientation=6 (90 degrees clockwise).
    let exif = b"Exif\0\0II\x2a\0\x08\0\0\0\x01\0\x12\x01\x03\0\x01\0\0\0\x06\0\0\0\0\0\0\0";
    let private_marker = b"private-location-metadata";
    let mut input = jpeg[..2].to_vec();
    for (marker, payload) in [(0xe1, exif.as_slice()), (0xfe, private_marker.as_slice())] {
        input.extend_from_slice(&[0xff, marker]);
        input.extend_from_slice(&((payload.len() + 2) as u16).to_be_bytes());
        input.extend_from_slice(payload);
    }
    input.extend_from_slice(&jpeg[2..]);
    let output = normalize(&input).unwrap();
    assert!(
        !output
            .windows(private_marker.len())
            .any(|part| part == private_marker)
    );
    assert!(!output.windows(4).any(|part| part == b"eXIf"));
    let decoded = image::load_from_memory(&output).unwrap();
    let top = decoded.get_pixel(SIZE / 2, SIZE / 4);
    let bottom = decoded.get_pixel(SIZE / 2, 3 * SIZE / 4);
    assert!(top[0] > 200 && top[2] < 60, "orientation puts red on top");
    assert!(
        bottom[2] > 200 && bottom[0] < 60,
        "orientation puts blue below"
    );
}

#[test]
fn revisions_and_removal_survive_restart_without_reusing_a_version() {
    let mut avatars = Avatars::new();
    let image = normalize(&sample(ImageFormat::Png)).unwrap();
    assert_eq!(avatars.save("cerro", Some(image.clone())), 1);
    assert_eq!(avatars.save("cerro", Some(image.clone())), 2);
    assert_eq!(avatars.save("cerro", None), 3);
    assert!(avatars.picture("cerro").is_none());
    assert_eq!(avatars.save("cerro", Some(image.clone())), 4);
    assert_eq!(avatars.picture("cerro"), Some((4, image)));
}

/// A picture with sixteen bits for each colour that is said to be as wide and
/// as high as can be.
fn enormous() -> Vec<u8> {
    let mut output = Cursor::new(Vec::new());
    DynamicImage::new_rgba16(1, 1)
        .write_to(&mut output, ImageFormat::Png)
        .unwrap();
    let mut bytes = output.into_inner();
    bytes[16..20].copy_from_slice(&MAX_DIMENSION.to_be_bytes());
    bytes[20..24].copy_from_slice(&MAX_DIMENSION.to_be_bytes());
    let mut crc = u32::MAX;
    for byte in &bytes[12..29] {
        crc ^= u32::from(*byte);
        for _ in 0..8 {
            crc = if crc & 1 == 1 { (crc >> 1) ^ 0xedb8_8320 } else { crc >> 1 };
        }
    }
    bytes[29..33].copy_from_slice(&(!crc).to_be_bytes());
    bytes
}

#[test]
fn each_refusal_of_a_picture_has_its_reason() {
    let reason = |bytes: &[u8]| normalize(bytes).unwrap_err();
    assert_eq!(reason(&vec![0; MAX_UPLOAD + 1]), PictureError::TooManyBytes);
    assert_eq!(reason(b"GIF89a"), PictureError::Invalid);
    assert_eq!(reason(&sample(ImageFormat::Png)[..20]), PictureError::Invalid);
    assert_eq!(
        reason(&enormous()),
        PictureError::TooLarge,
        "eight bytes for each of the pixels are too many"
    );
    assert_eq!(
        PictureError::TooManyBytes.message(),
        "Choose a picture smaller than 2 MiB."
    );
    assert_eq!(
        PictureError::Invalid.message(),
        "Choose a valid JPEG or PNG picture."
    );
}

#[test]
fn the_largest_square_in_the_middle_is_taken() {
    assert_eq!(square(12, 8, 1), (2, 0, 8));
    assert_eq!(square(8, 12, 1), (0, 2, 8));
    assert_eq!(square(5, 5, 1), (0, 0, 5));
    assert!(fits(1, 1, 4));
    assert!(!fits(0, 1, 0));
    assert!(!fits(MAX_DIMENSION + 1, 1, 4));
    assert!(fits(MAX_DIMENSION, 1, 4));
    assert!(fits(MAX_DIMENSION, MAX_DIMENSION, MAX_DECODED));
    assert!(!fits(MAX_DIMENSION, MAX_DIMENSION, MAX_DECODED + 1));
}

#[test]
fn pictures_of_configured_players_are_listed_with_their_revision() {
    let user = || UserConfig { display: None, ntfy_topic: None, token: None };
    let config = Config {
        ntfy: None,
        users: vec![("cerro".into(), user()), ("hill".into(), user())],
    };
    let mut avatars = Avatars::new();
    assert!(avatars.list(&config).is_empty());
    let image = normalize(&sample(ImageFormat::Jpeg)).unwrap();
    avatars.save("cerro", Some(image.clone()));
    avatars.save("cerro", Some(image.clone()));
    avatars.save("hill", Some(image.clone()));
    avatars.save("hill", None);
    avatars.save("stranger", Some(image));
    assert_eq!(avatars.list(&config), [("cerro".to_string(), "2".to_string())]);
}

#[test]
fn a_known_revision_is_not_sent_again() {
    let tag = etag(1);
    assert_eq!(tag, "\"avatar-1\"");
    for condition in [tag.clone(), format!("\"older\", W/{tag}"), "*".to_string()] {
        assert!(is_unchanged(&[condition], 1));
    }
    assert!(!is_unchanged(&[tag], 2));
    assert!(!is_unchanged(&[], 1));
}
