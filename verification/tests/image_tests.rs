use photomosaic::MosaicError;
use photomosaic::image_data::RgbImage;
use photomosaic::image_data::sub_image_pixels;
use photomosaic::image_data::to_triples;
use photomosaic::imagery::prepare_source;

fn png_bytes(w: u32, h: u32, f: impl Fn(u32, u32) -> (u8, u8, u8)) -> Vec<u8> {
    let img = image::RgbImage::from_fn(w, h, |x, y| {
        let (r, g, b) = f(x, y);
        image::Rgb([r, g, b])
    });
    let mut buf = std::io::Cursor::new(Vec::new());
    image::DynamicImage::ImageRgb8(img)
        .write_to(&mut buf, image::ImageFormat::Png)
        .unwrap();
    buf.into_inner()
}

#[test]
fn blank_canvases_are_black() {
    let img = RgbImage::blank(3, 2);
    assert_eq!(img.width, 3);
    assert_eq!(img.height, 2);
    assert_eq!(img.pixels.len(), 6);
    for y in 0..2 {
        for x in 0..3 {
            assert_eq!(img.get(x, y), (0, 0, 0));
        }
    }
}

#[test]
fn set_writes_one_pixel() {
    let mut img = RgbImage::blank(2, 2);
    img.set(1, 0, (9, 8, 7));
    assert_eq!(img.get(1, 0), (9, 8, 7));
    assert_eq!(img.get(0, 0), (0, 0, 0));
    assert_eq!(img.get(0, 1), (0, 0, 0));
    assert_eq!(img.get(1, 1), (0, 0, 0));
}

#[test]
fn windows_are_read_column_by_column() {
    let mut img = RgbImage::blank(2, 2);
    img.set(0, 0, (1, 0, 0));
    img.set(0, 1, (2, 0, 0));
    img.set(1, 0, (3, 0, 0));
    img.set(1, 1, (4, 0, 0));
    let w = sub_image_pixels(&img, 0, 0, 2, 2);
    assert_eq!(w, vec![(1, 0, 0), (2, 0, 0), (3, 0, 0), (4, 0, 0)]);
}

#[test]
fn raw_bytes_group_into_triples() {
    let raw = vec![1u8, 2, 3, 4, 5, 6];
    assert_eq!(to_triples(&raw), vec![(1, 2, 3), (4, 5, 6)]);
}

#[test]
fn source_dimensions_round_to_the_nearest_block_multiple() {
    // 20 / 16 rounds down to one block, 25 / 16 rounds up to two.
    let a = prepare_source(&png_bytes(20, 20, |_, _| (1, 2, 3)), 16).unwrap();
    assert_eq!((a.width, a.height), (16, 16));
    let b = prepare_source(&png_bytes(25, 20, |_, _| (1, 2, 3)), 16).unwrap();
    assert_eq!((b.width, b.height), (32, 16));
}

#[test]
fn a_source_much_smaller_than_a_block_becomes_empty() {
    let img = prepare_source(&png_bytes(7, 7, |_, _| (0, 0, 0)), 16).unwrap();
    assert_eq!((img.width, img.height), (0, 0));
    assert_eq!(img.pixels.len(), 0);
}

#[test]
fn undecodable_source_bytes_are_fatal() {
    let r = prepare_source(&b"this is not an image".to_vec(), 16);
    assert_eq!(r.unwrap_err(), MosaicError::SourceUndecodable);
}

#[test]
fn prepared_pixels_match_the_decoded_image() {
    // A 16x16 source with a red left half stays as it is at block size 16
    // after the identity resample.
    let bytes = png_bytes(16, 16, |x, _| if x < 8 { (255, 0, 0) } else { (0, 0, 255) });
    let img = prepare_source(&bytes, 16).unwrap();
    assert_eq!((img.width, img.height), (16, 16));
    assert_eq!(img.get(0, 0), (255, 0, 0));
    assert_eq!(img.get(7, 15), (255, 0, 0));
    assert_eq!(img.get(8, 0), (0, 0, 255));
    assert_eq!(img.get(15, 15), (0, 0, 255));
}
