use afb_dds::afb::{convert_stage, extract_afb, StageTemplate};
use afb_dds::chunks::{locate_dds_chunks, ChunkError};
use afb_dds::texture::{
    convert_dds, convert_fx, fx_tile_slots, is_valid_image, resize_if_needed, ImageCheck,
    ImageError, RgbaImage,
    DXGI_FORMAT_BC1_UNORM,
};

fn solid_image(width: u32, height: u32, rgba: [u8; 4]) -> RgbaImage {
    let mut pixels = Vec::new();
    for _ in 0..(width as usize * height as usize) {
        pixels.extend_from_slice(&rgba);
    }
    RgbaImage { width, height, pixels }
}

/// An AFB-like container: some leading bytes, then each texture as "DDS "
/// and a body, then a "POF0" trailer.
fn afb_container(bodies: &[&[u8]]) -> Vec<u8> {
    let mut data = b"AFB\0head".to_vec();
    for body in bodies {
        data.extend_from_slice(b"DDS ");
        data.extend_from_slice(body);
    }
    data.extend_from_slice(b"POF0tail");
    data
}

#[test]
fn test_convert_dds_invalid_dimensions() {
    let img = solid_image(100, 100, [10, 20, 30, 255]);
    let result = convert_dds(img, 0, 100, DXGI_FORMAT_BC1_UNORM);
    assert!(result.is_err());
    assert_eq!(result.err(), Some(ImageError::InvalidDimensions));
}

#[test]
fn test_convert_dds_success() {
    let img = solid_image(100, 100, [10, 20, 30, 255]);
    let job = convert_dds(img, 100, 100, DXGI_FORMAT_BC1_UNORM).unwrap();
    assert_eq!((job.image.width, job.image.height), (100, 100));
    assert_eq!(job.image.pixels.len(), 100 * 100 * 4);
    assert_eq!(&job.image.pixels[0..4], &[10, 20, 30, 255]);
    assert_eq!(job.format, DXGI_FORMAT_BC1_UNORM);
    assert!(job.needs_compression());
}

#[test]
fn test_convert_dds_resize() {
    let img = solid_image(100, 100, [10, 20, 30, 255]);
    let job = convert_dds(img, 50, 50, DXGI_FORMAT_BC1_UNORM).unwrap();
    assert_eq!((job.image.width, job.image.height), (50, 50));
    assert_eq!(job.image.pixels.len(), 50 * 50 * 4);
    // A solid image stays solid when it is resized.
    assert_eq!(&job.image.pixels[0..4], &[10, 20, 30, 255]);
}

#[test]
fn test_convert_fx_success() {
    let present = [true, true, false, true];
    let slots = fx_tile_slots(&present);
    assert_eq!(slots, vec![0, 1, 3]);
    let tiles = vec![
        solid_image(256, 256, [255, 0, 0, 255]),
        solid_image(256, 256, [0, 255, 0, 255]),
        solid_image(256, 256, [0, 0, 255, 255]),
    ];
    let job = convert_fx(tiles);
    assert_eq!((job.image.width, job.image.height), (512, 512));
    assert_eq!(job.format, 77);
    let px = |x: usize, y: usize| {
        let i = (y * 512 + x) * 4;
        [job.image.pixels[i], job.image.pixels[i + 1], job.image.pixels[i + 2], job.image.pixels[i + 3]]
    };
    assert_eq!(px(0, 0), [255, 0, 0, 255]);
    assert_eq!(px(300, 10), [0, 255, 0, 255]);
    assert_eq!(px(10, 300), [0, 0, 255, 255]);
    assert_eq!(px(511, 511), [0, 0, 0, 0]);
}

#[test]
fn fx_tiles_come_from_present_entries_among_the_first_four() {
    assert_eq!(fx_tile_slots(&[false, false, false, false, true]), Vec::<usize>::new());
    assert_eq!(fx_tile_slots(&[false, true, false, true, true, true]), vec![1, 3]);
    assert_eq!(fx_tile_slots(&[]), Vec::<usize>::new());
    assert_eq!(fx_tile_slots(&[true, true, true, true, true]), vec![0, 1, 2, 3]);
}

#[test]
fn fx_without_tiles_is_transparent() {
    let job = convert_fx(Vec::new());
    assert_eq!(job.image.pixels.len(), 512 * 512 * 4);
    assert!(job.image.pixels.iter().all(|&b| b == 0));
}

#[test]
fn test_convert_fx_with_resize() {
    let tiles: Vec<RgbaImage> = vec![
        solid_image(100, 100, [1, 2, 3, 255]),
        solid_image(200, 200, [4, 5, 6, 255]),
        solid_image(300, 300, [7, 8, 9, 255]),
        solid_image(400, 400, [10, 11, 12, 255]),
    ]
    .into_iter()
    .map(|tile| resize_if_needed(tile, 256, 256))
    .collect();
    let job = convert_fx(tiles);
    assert_eq!((job.image.width, job.image.height), (512, 512));
    assert_eq!(job.image.pixels.len(), 512 * 512 * 4);
    let at = |x: usize, y: usize| job.image.pixels[(y * 512 + x) * 4];
    assert_eq!(at(128, 128), 1);
    assert_eq!(at(384, 128), 4);
    assert_eq!(at(128, 384), 7);
    assert_eq!(at(384, 384), 10);
}

#[test]
fn test_extract_afb() {
    let data = afb_container(&[b"first", b"second"]);
    let files = extract_afb(&data, Some("test")).unwrap();
    assert_eq!(files.len(), 2);
    assert_eq!(files[0].name, "test_0001.dds");
    assert_eq!(files[1].name, "test_0002.dds");
    assert_eq!(files[0].bytes, b"DDS first".to_vec());
    assert_eq!(files[1].bytes, b"DDS second".to_vec());
}

#[test]
fn test_convert_stage() {
    let st = afb_container(&[b"old background", b"old effect"]);
    let st_chunks = locate_dds_chunks(&st);
    let template = StageTemplate {
        st,
        st_chunks,
        fx_dummy: b"DDS dummy effect".to_vec(),
        nf: b"nf".to_vec(),
    };
    let out = convert_stage(&template, b"DDS new background", None).unwrap();
    let files = extract_afb(&out, Some("output_st")).unwrap();
    assert_eq!(files.len(), 2);
    assert_eq!(files[0].bytes, b"DDS new background".to_vec());
    assert_eq!(files[1].bytes, b"DDS dummy effect".to_vec());
    assert!(out.ends_with(b"POF0tail"));
}

/// The extension of a path, as `Path::extension` gives it.
fn extension_of(path: &str) -> Option<&str> {
    std::path::Path::new(path).extension().and_then(|s| s.to_str())
}

#[test]
fn test_is_valid_image_empty_path() {
    // An empty path has no extension, so its contents would have to be read;
    // without them it is never accepted.
    let result = is_valid_image(extension_of(""), None);
    assert!(result != ImageCheck::Valid);
    assert_eq!(result, ImageCheck::NeedsHeader);
}

#[test]
fn test_is_valid_image_nonexistent_path() {
    // A missing file yields no header bytes, so it is never accepted.
    let result = is_valid_image(extension_of("nonexistent_file.png"), None);
    assert!(result != ImageCheck::Valid);
    assert_eq!(result, ImageCheck::NeedsHeader);
}

#[test]
fn test_is_valid_image_valid_image() {
    // The first 32 bytes of a JPEG file.
    let mut header = vec![0xFF, 0xD8, 0xFF, 0xE0, 0x00, 0x10, b'J', b'F', b'I', b'F', 0x00];
    header.resize(32, 0);
    let result = is_valid_image(extension_of("tests/1.jpg"), Some(&header));
    assert_eq!(result, ImageCheck::Valid);
}

#[test]
fn test_convert_stage_invalid_input() {
    // A background that is not an image is refused before any stage is made.
    let not_an_image = [b'x'; 32];
    let result = is_valid_image(extension_of("test_assets/output/nonexistent.jpg"), Some(&not_an_image));
    assert!(result == ImageCheck::Invalid, "Should fail with invalid background image");

    // An effect input that is not an image is refused too.
    let result = is_valid_image(extension_of("test_assets/output/nonexistent.jpg"), None);
    assert!(result != ImageCheck::Valid, "Should fail with invalid FX image");
}

#[test]
fn stage_template_with_too_many_places_is_refused() {
    let st = afb_container(&[b"one", b"two", b"three"]);
    let st_chunks = locate_dds_chunks(&st);
    let template = StageTemplate { st, st_chunks, fx_dummy: b"DDS fx".to_vec(), nf: Vec::new() };
    let result = convert_stage(&template, b"DDS bg", None);
    assert_eq!(
        result.err(),
        Some(ChunkError::TooFewReplacements { replacements: 2, chunks: 3 })
    );
}
