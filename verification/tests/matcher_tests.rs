use photomosaic::MosaicError;
use photomosaic::index::ContentIndex;
use photomosaic::index::IndexData;
use photomosaic::index::IndexEntry;
use photomosaic::matcher::ColorMatchCache;
use photomosaic::matcher::closest;
use photomosaic::matcher::closest_cached;
use photomosaic::matcher::closest_path;

fn index_of(avgs: &[(u8, u8, u8)]) -> ContentIndex {
    let mut entries = Vec::new();
    for (k, &average) in avgs.iter().enumerate() {
        entries.push(IndexEntry {
            path: format!("tile{}.png", k).into_bytes(),
            data: IndexData { hash: b"00".to_vec(), average },
        });
    }
    ContentIndex { entries }
}

#[test]
fn an_exact_match_is_chosen() {
    let idx = index_of(&[(200, 200, 200), (10, 10, 10), (0, 255, 0)]);
    assert_eq!(closest(&idx, (10, 10, 10)).unwrap(), 1);
}

#[test]
fn the_nearest_entry_wins() {
    let idx = index_of(&[(0, 0, 0), (100, 0, 0), (255, 255, 255)]);
    assert_eq!(closest(&idx, (90, 10, 0)).unwrap(), 1);
    assert_eq!(closest(&idx, (250, 250, 250)).unwrap(), 2);
    assert_eq!(closest(&idx, (1, 0, 0)).unwrap(), 0);
}

#[test]
fn ties_go_to_the_first_entry() {
    let idx = index_of(&[(50, 50, 50), (50, 50, 50)]);
    assert_eq!(closest(&idx, (50, 50, 50)).unwrap(), 0);
}

#[test]
fn closest_path_names_the_chosen_tile() {
    let idx = index_of(&[(0, 0, 0), (10, 10, 10)]);
    assert_eq!(
        closest_path(&idx, (10, 10, 10)).unwrap(),
        &b"tile1.png".to_vec()
    );
}

#[test]
fn an_empty_index_has_no_tiles() {
    let idx = ContentIndex { entries: Vec::new() };
    assert_eq!(closest(&idx, (1, 2, 3)).unwrap_err(), MosaicError::NoTilesAvailable);
}

#[test]
fn the_memo_agrees_with_a_fresh_scan() {
    let idx = index_of(&[(0, 0, 0), (120, 130, 140), (255, 255, 255)]);
    let mut cache = ColorMatchCache::new();
    for target in [(0, 0, 5), (119, 130, 141), (250, 255, 255), (0, 0, 5)] {
        let from_cache = closest_cached(&mut cache, &idx, target).unwrap();
        let from_scan = closest(&idx, target).unwrap();
        assert_eq!(from_cache, from_scan);
    }
}
