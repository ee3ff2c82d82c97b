use afb_dds::afb::wants_fx_texture;
use afb_dds::texture::{
    convert_bg, convert_jk, is_tga_extension, is_valid_image, resize_if_needed,
    validate_dimensions, DdsJob, ImageCheck, ImageError, RgbaImage, DXGI_FORMAT_BC1_UNORM,
    DXGI_FORMAT_R8G8B8A8_UNORM,
};

fn image(width: u32, height: u32) -> RgbaImage {
    let pixels = (0..width as usize * height as usize * 4).map(|i| (i % 251) as u8).collect();
    RgbaImage { width, height, pixels }
}

#[test]
fn tga_extension_is_exact() {
    assert!(is_tga_extension(Some("tga")));
    assert!(!is_tga_extension(Some("TGA")));
    assert!(!is_tga_extension(Some("tgax")));
    assert!(!is_tga_extension(Some("")));
    assert!(!is_tga_extension(None));
}

#[test]
fn signatures_of_known_formats() {
    let png: &[u8] = b"\x89PNG\r\n\x1a\n0000000000000000000000";
    assert_eq!(is_valid_image(Some("png"), Some(png)), ImageCheck::Valid);
    assert_eq!(is_valid_image(None, Some(&[0xff, 0xd8, 0xff, 0xe0])), ImageCheck::Valid);
    assert_eq!(is_valid_image(Some("bmp"), Some(b"BM000000")), ImageCheck::Valid);
    assert_eq!(is_valid_image(Some("png"), Some(&[0u8; 32])), ImageCheck::Invalid);
    assert_eq!(is_valid_image(Some("png"), Some(b"")), ImageCheck::Invalid);
}

#[test]
fn tga_needs_no_header_and_others_do() {
    assert_eq!(is_valid_image(Some("tga"), None), ImageCheck::Valid);
    assert_eq!(is_valid_image(Some("tga"), Some(&[0u8; 32])), ImageCheck::Valid);
    assert_eq!(is_valid_image(Some("png"), None), ImageCheck::NeedsHeader);
    assert_eq!(is_valid_image(None, None), ImageCheck::NeedsHeader);
}

#[test]
fn dimensions_must_be_positive() {
    assert_eq!(validate_dimensions(0, 5), Err(ImageError::InvalidDimensions));
    assert_eq!(validate_dimensions(5, 0), Err(ImageError::InvalidDimensions));
    assert_eq!(validate_dimensions(1, 1), Ok(()));
}

#[test]
fn resize_keeps_an_image_of_the_right_size() {
    let img = image(4, 3);
    let before = img.pixels.clone();
    let out = resize_if_needed(img, 4, 3);
    assert_eq!(out.pixels, before);
}

#[test]
fn resize_changes_the_size() {
    let out = resize_if_needed(image(4, 3), 8, 2);
    assert_eq!((out.width, out.height), (8, 2));
    assert_eq!(out.pixels.len(), 8 * 2 * 4);
}

#[test]
fn background_and_jacket_sizes() {
    let bg = convert_bg(image(16, 9)).unwrap();
    assert_eq!((bg.image.width, bg.image.height, bg.format), (1920, 1080, DXGI_FORMAT_BC1_UNORM));
    assert_eq!(bg.image.pixels.len(), 1920 * 1080 * 4);
    let jk = convert_jk(image(300, 300)).unwrap();
    assert_eq!((jk.image.width, jk.image.height), (300, 300));
    assert_eq!(jk.image.pixels, image(300, 300).pixels);
}

#[test]
fn rgba_target_needs_no_compression() {
    let job = DdsJob { image: image(1, 1), format: DXGI_FORMAT_R8G8B8A8_UNORM };
    assert!(!job.needs_compression());
}

#[test]
fn any_fx_input_counts() {
    assert!(!wants_fx_texture(&[]));
    assert!(!wants_fx_texture(&[false, false]));
    assert!(wants_fx_texture(&[false, false, false, false, true]));
}
