use photomosaic::MosaicError;
use photomosaic::compose::compose;
use photomosaic::compose::place_tile;
use photomosaic::compose::render_region;
use photomosaic::image_data::RgbImage;
use photomosaic::imagery::prepare_source;
use photomosaic::index::ContentIndex;
use photomosaic::index::refresh;
use photomosaic::matcher::ColorMatchCache;
use photomosaic::params::MosaicConfig;
use photomosaic::tile::TileCache;
use rayon::iter::IntoParallelRefIterator;
use rayon::iter::ParallelIterator;

fn png_bytes(w: u32, h: u32, f: impl Fn(u32, u32) -> (u8, u8, u8)) -> Vec<u8> {
    let img = image::RgbImage::from_fn(w, h, |x, y| {
        let (r, g, b) = f(x, y);
        image::Rgb([r, g, b])
    });
    let mut buf = std::io::Cursor::new(Vec::new());
    image::DynamicImage::ImageRgb8(img)
        .write_to(&mut buf, image::ImageFormat::Png)
        .unwrap();
    buf.into_inner()
}

fn solid_png(w: u32, h: u32, c: (u8, u8, u8)) -> Vec<u8> {
    png_bytes(w, h, |_, _| c)
}

fn red_blue_library() -> Vec<(Vec<u8>, Vec<u8>)> {
    vec![
        (b"red.png".to_vec(), solid_png(4, 4, (255, 0, 0))),
        (b"blue.png".to_vec(), solid_png(3, 5, (0, 0, 255))),
    ]
}

fn config(block_size: u32, magnification: u32, color_caching: bool) -> MosaicConfig {
    MosaicConfig {
        block_size,
        magnification,
        threads: 1,
        color_caching,
        verbosity: 0,
        print_timings: false,
    }
}

#[test]
fn a_solid_red_source_fills_every_block_with_the_red_tile() {
    let files = red_blue_library();
    let index = refresh(&ContentIndex::empty(), &files);
    let source = prepare_source(&solid_png(32, 32, (255, 0, 0)), 16).unwrap();
    let out = compose(&source, &index, &files, &config(16, 1, false)).unwrap();
    assert_eq!((out.width, out.height), (32, 32));
    for y in 0..32 {
        for x in 0..32 {
            assert_eq!(out.get(x, y), (255, 0, 0));
        }
    }
}

#[test]
fn quadrants_pick_their_own_tiles_under_magnification() {
    let files = red_blue_library();
    let index = refresh(&ContentIndex::empty(), &files);
    let src = png_bytes(32, 32, |x, y| {
        if x < 16 && y < 16 {
            (255, 0, 0)
        } else {
            (0, 0, 255)
        }
    });
    let source = prepare_source(&src, 16).unwrap();
    let out = compose(&source, &index, &files, &config(16, 2, false)).unwrap();
    assert_eq!((out.width, out.height), (64, 64));
    for y in 0..64 {
        for x in 0..64 {
            let expected = if x < 32 && y < 32 {
                (255, 0, 0)
            } else {
                (0, 0, 255)
            };
            assert_eq!(out.get(x, y), expected, "pixel ({}, {})", x, y);
        }
    }
}

#[test]
fn an_empty_library_is_fatal() {
    let files: Vec<(Vec<u8>, Vec<u8>)> = Vec::new();
    let index = refresh(&ContentIndex::empty(), &files);
    let source = prepare_source(&solid_png(16, 16, (0, 0, 0)), 16).unwrap();
    let r = compose(&source, &index, &files, &config(16, 1, false));
    assert_eq!(r.unwrap_err(), MosaicError::NoTilesAvailable);
}

#[test]
fn a_missing_tile_file_is_fatal() {
    let files = red_blue_library();
    let index = refresh(&ContentIndex::empty(), &files);
    // Compose against a snapshot that lost the files backing the index.
    let empty_files: Vec<(Vec<u8>, Vec<u8>)> = Vec::new();
    let source = prepare_source(&solid_png(16, 16, (255, 0, 0)), 16).unwrap();
    let r = compose(&source, &index, &empty_files, &config(16, 1, false));
    assert_eq!(r.unwrap_err(), MosaicError::TileUnavailable);
}

#[test]
fn caching_does_not_change_the_canvas() {
    let files = red_blue_library();
    let index = refresh(&ContentIndex::empty(), &files);
    let src = png_bytes(32, 32, |x, _| if x < 16 { (200, 10, 10) } else { (10, 10, 200) });
    let source = prepare_source(&src, 16).unwrap();
    let plain = compose(&source, &index, &files, &config(16, 1, false)).unwrap();
    let cached = compose(&source, &index, &files, &config(16, 1, true)).unwrap();
    assert_eq!(plain.pixels, cached.pixels);
}

#[test]
fn parallel_workers_produce_the_sequential_canvas() {
    let files = red_blue_library();
    let index = refresh(&ContentIndex::empty(), &files);
    let src = png_bytes(48, 32, |x, y| {
        if (x / 16 + y / 16) % 2 == 0 {
            (255, 0, 0)
        } else {
            (0, 0, 255)
        }
    });
    let source = prepare_source(&src, 16).unwrap();
    let sequential = compose(&source, &index, &files, &config(16, 2, false)).unwrap();

    // The same regions, rendered on a thread pool in whatever order the
    // scheduler picks, then placed back in reverse.
    let mut regions: Vec<(u32, u32)> = Vec::new();
    for rx in 0..3 {
        for ry in 0..2 {
            regions.push((rx, ry));
        }
    }
    let mut tiles: Vec<((u32, u32), RgbImage)> = regions
        .par_iter()
        .map(|&(rx, ry)| {
            let mut colors = ColorMatchCache::new();
            let mut cache = TileCache::new();
            let tile = render_region(
                &source, &index, &files, &mut colors, false, &mut cache, rx, ry, 16, 2,
            )
            .unwrap();
            ((rx, ry), tile)
        })
        .collect();
    tiles.reverse();
    let mut parallel = RgbImage::blank(96, 64);
    for ((rx, ry), tile) in &tiles {
        place_tile(&mut parallel, *rx, *ry, tile, 32);
    }
    assert_eq!(sequential.pixels, parallel.pixels);
}

#[test]
fn a_source_smaller_than_half_a_block_gives_an_empty_canvas() {
    let files = red_blue_library();
    let index = refresh(&ContentIndex::empty(), &files);
    let source = prepare_source(&solid_png(7, 7, (1, 1, 1)), 16).unwrap();
    let out = compose(&source, &index, &files, &config(16, 2, false)).unwrap();
    assert_eq!((out.width, out.height), (0, 0));
}
