use photomosaic::codec::parse_index;
use photomosaic::codec::render_index;
use photomosaic::index::ContentIndex;
use photomosaic::index::refresh;

fn png_bytes(w: u32, h: u32, f: impl Fn(u32, u32) -> (u8, u8, u8)) -> Vec<u8> {
    let img = image::RgbImage::from_fn(w, h, |x, y| {
        let (r, g, b) = f(x, y);
        image::Rgb([r, g, b])
    });
    let mut buf = std::io::Cursor::new(Vec::new());
    image::DynamicImage::ImageRgb8(img)
        .write_to(&mut buf, image::ImageFormat::Png)
        .unwrap();
    buf.into_inner()
}

fn solid_png(w: u32, h: u32, c: (u8, u8, u8)) -> Vec<u8> {
    png_bytes(w, h, |_, _| c)
}

fn md5_hex(bytes: &[u8]) -> Vec<u8> {
    format!("{:x}", md5::compute(bytes)).into_bytes()
}

fn assert_same_entries(a: &ContentIndex, b: &ContentIndex) {
    assert_eq!(a.entries.len(), b.entries.len());
    for k in 0..a.entries.len() {
        assert_eq!(a.entries[k].path, b.entries[k].path);
        assert_eq!(a.entries[k].data.hash, b.entries[k].data.hash);
        assert_eq!(a.entries[k].data.average, b.entries[k].data.average);
    }
}

#[test]
fn refresh_indexes_new_files() {
    let red = solid_png(4, 4, (255, 0, 0));
    let blue = solid_png(6, 2, (0, 0, 255));
    let files = vec![
        (b"red.png".to_vec(), red.clone()),
        (b"blue.png".to_vec(), blue.clone()),
    ];
    let index = refresh(&ContentIndex::empty(), &files);
    assert_eq!(index.entries.len(), 2);
    assert_eq!(index.entries[0].path, b"red.png".to_vec());
    assert_eq!(index.entries[0].data.average, (255, 0, 0));
    assert_eq!(index.entries[0].data.hash, md5_hex(&red));
    assert_eq!(index.entries[1].path, b"blue.png".to_vec());
    assert_eq!(index.entries[1].data.average, (0, 0, 255));
    assert_eq!(index.entries[1].data.hash, md5_hex(&blue));
}

#[test]
fn refresh_skips_files_that_do_not_decode() {
    let files = vec![
        (b"notes.txt".to_vec(), b"not an image at all".to_vec()),
        (b"green.png".to_vec(), solid_png(3, 3, (0, 200, 0))),
    ];
    let index = refresh(&ContentIndex::empty(), &files);
    assert_eq!(index.entries.len(), 1);
    assert_eq!(index.entries[0].path, b"green.png".to_vec());
    assert!(index.get(&b"notes.txt".to_vec()).is_none());
}

#[test]
fn refresh_is_idempotent_on_an_unchanged_snapshot() {
    let files = vec![
        (b"a.png".to_vec(), solid_png(4, 4, (10, 20, 30))),
        (b"b.png".to_vec(), solid_png(2, 2, (200, 100, 50))),
    ];
    let first = refresh(&ContentIndex::empty(), &files);
    let second = refresh(&first, &files);
    assert_same_entries(&first, &second);
}

#[test]
fn persisting_and_reloading_preserves_the_index() {
    let files = vec![
        (b"a.png".to_vec(), solid_png(4, 4, (1, 2, 3))),
        (b"b.png".to_vec(), solid_png(5, 5, (9, 8, 7))),
    ];
    let index = refresh(&ContentIndex::empty(), &files);
    let doc = render_index(&index);
    let reloaded = parse_index(&doc).unwrap();
    assert_same_entries(&index, &reloaded);
    // A refresh over the reloaded index with unchanged files changes nothing.
    let again = refresh(&reloaded, &files);
    assert_same_entries(&index, &again);
}

#[test]
fn changed_bytes_force_recomputation() {
    let red = solid_png(4, 4, (255, 0, 0));
    let blue = solid_png(4, 4, (0, 0, 255));
    let path = b"tile.png".to_vec();
    let first = refresh(&ContentIndex::empty(), &vec![(path.clone(), red.clone())]);
    assert_eq!(first.entries[0].data.average, (255, 0, 0));

    let second = refresh(&first, &vec![(path.clone(), blue.clone())]);
    assert_eq!(second.entries.len(), 1);
    assert_eq!(second.entries[0].data.average, (0, 0, 255));
    assert_eq!(second.entries[0].data.hash, md5_hex(&blue));
    assert_ne!(md5_hex(&blue), md5_hex(&red));
}

#[test]
fn deleted_files_drop_their_entries() {
    let files = vec![
        (b"keep.png".to_vec(), solid_png(2, 2, (5, 5, 5))),
        (b"gone.png".to_vec(), solid_png(2, 2, (6, 6, 6))),
    ];
    let first = refresh(&ContentIndex::empty(), &files);
    assert_eq!(first.entries.len(), 2);

    let fewer = vec![files[0].clone()];
    let second = refresh(&first, &fewer);
    assert_eq!(second.entries.len(), 1);
    assert!(second.get(&b"gone.png".to_vec()).is_none());
    assert!(second.get(&b"keep.png".to_vec()).is_some());
}
