use distributed_image_cloud::encryption::{
    decrement_quota, decrypt_image, embed_bytes, embed_u32, encrypt_image, extract_bytes,
    extract_u32, hide_payload, is_authorized, reveal_payload, EncryptError, ImageMetadata,
    StegoError,
};
use std::io::Cursor;

fn png_of(width: u32, height: u32, seed: u8) -> Vec<u8> {
    let pixels: Vec<u8> = (0..(width * height * 3) as usize)
        .map(|i| (i as u8).wrapping_mul(seed).wrapping_add(seed))
        .collect();
    let img = image::RgbImage::from_raw(width, height, pixels).unwrap();
    let mut out = Cursor::new(Vec::new());
    image::DynamicImage::ImageRgb8(img)
        .write_to(&mut out, image::ImageFormat::Png)
        .unwrap();
    out.into_inner()
}

#[test]
fn test_authorization() {
    let metadata = ImageMetadata {
        usernames: vec!["alice".to_string(), "bob".to_string()],
        quota: 3,
    };

    assert!(is_authorized(&metadata, "alice"));
    assert!(is_authorized(&metadata, "bob"));
    assert!(!is_authorized(&metadata, "charlie"));
}

#[test]
fn test_quota_decrement() {
    let mut metadata = ImageMetadata {
        usernames: vec!["alice".to_string()],
        quota: 2,
    };

    assert!(decrement_quota(&mut metadata));
    assert_eq!(metadata.quota, 1);

    assert!(decrement_quota(&mut metadata));
    assert_eq!(metadata.quota, 0);

    assert!(!decrement_quota(&mut metadata));
    assert_eq!(metadata.quota, 0);
}

#[test]
fn embed_then_extract_bytes() {
    let mut pixels = vec![0xffu8; 64];
    let mut at = 0usize;
    embed_u32(&mut pixels, &mut at, 0x0102_0304);
    assert_eq!(at, 32);
    embed_bytes(&mut pixels, &mut at, &[0xa5]);
    assert_eq!(at, 40);
    assert_eq!(&pixels[32..40], &[0xff, 0xfe, 0xff, 0xfe, 0xfe, 0xff, 0xfe, 0xff]);
    assert_eq!(pixels[40], 0xff);

    let mut read = 0usize;
    assert_eq!(extract_u32(&pixels, &mut read), Ok(0x0102_0304));
    let mut out = vec![0u8; 1];
    assert_eq!(extract_bytes(&pixels, &mut read, &mut out), Ok(()));
    assert_eq!(out, vec![0xa5]);
    assert_eq!(read, 40);
}

#[test]
fn extract_past_end_fails() {
    let pixels = vec![0u8; 20];
    let mut at = 0usize;
    assert!(extract_u32(&pixels, &mut at).is_err());
    assert_eq!(at, 0);
    let mut out = vec![0u8; 3];
    assert!(extract_bytes(&pixels, &mut at, &mut out).is_err());
}

#[test]
fn hide_then_reveal_payload() {
    let cover = vec![0x55u8; 1000];
    let hidden = hide_payload(cover, b"{\"quota\":5}", &[9, 8, 7]).unwrap();
    let (metadata, image) = reveal_payload(&hidden).unwrap();
    assert_eq!(metadata, b"{\"quota\":5}".to_vec());
    assert_eq!(image, vec![9, 8, 7]);
}

#[test]
fn hide_refuses_small_cover() {
    assert_eq!(
        hide_payload(vec![0u8; 95], &[1; 2], &[1; 2]),
        Err(StegoError::CoverTooSmall)
    );
    assert!(hide_payload(vec![0u8; 96], &[1; 2], &[1; 2]).is_ok());
    assert_eq!(
        hide_payload(vec![0u8; 100], &vec![1; 10001], &[1; 2]),
        Err(StegoError::PayloadTooLarge)
    );
}

#[test]
fn reveal_errors() {
    assert_eq!(reveal_payload(&[0u8; 10]), Err(StegoError::CarrierTooSmall));
    assert_eq!(reveal_payload(&[0u8; 64]), Err(StegoError::InvalidMetadataLength));
    let hidden = hide_payload(vec![0u8; 64 + 8 * 3], &[1], &[]).unwrap();
    assert_eq!(reveal_payload(&hidden), Err(StegoError::InvalidImageLength));
    let mut short = vec![0u8; 64];
    let mut at = 0usize;
    embed_u32(&mut short, &mut at, 100);
    assert_eq!(reveal_payload(&short), Err(StegoError::UnexpectedEnd));
}

#[test]
fn encrypt_then_decrypt_image() {
    let secret = png_of(8, 8, 3);
    let cover = png_of(64, 64, 7);
    let metadata = br#"{"usernames":["alice","bob"],"quota":5}"#.to_vec();
    let encrypted = encrypt_image(&secret, &cover, &metadata).unwrap();
    assert_ne!(encrypted, cover);
    let (m, i) = decrypt_image(&encrypted).unwrap();
    assert_eq!(m, metadata);
    assert_eq!(i, secret);
}

#[test]
fn encrypt_errors() {
    let cover = png_of(64, 64, 7);
    assert_eq!(encrypt_image(&vec![1, 2, 3], &cover, &vec![1]), Err(EncryptError::BadImage));
    let secret = png_of(8, 8, 3);
    assert_eq!(encrypt_image(&secret, &vec![1, 2, 3], &vec![1]), Err(EncryptError::BadCover));
    let small_cover = png_of(4, 4, 1);
    assert_eq!(
        encrypt_image(&secret, &small_cover, &vec![1]),
        Err(EncryptError::Hiding(StegoError::CoverTooSmall))
    );
    assert_eq!(decrypt_image(&vec![0, 1, 2]), Err(EncryptError::BadCarrier));
    assert_eq!(EncryptError::BadImage.describe(), "Failed to decode the image to hide");
}
