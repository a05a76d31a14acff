//! The tile cache.
//!
//! A chosen library entry resolves to its file's bytes in the directory
//! snapshot, decoded and resampled to the square tile dimension. The cache
//! memoizes that work per entry; it never holds anything but what decoding
//! and resampling that entry's bytes yields, so a hit and a fresh decode
//! agree.
use std::collections::HashMap;
use vstd::prelude::*;
use crate::MosaicError;
use crate::image_data::RgbImage;
use crate::image_data::to_triples;
use crate::image_data::triples_of;
use crate::imagery::decode_rgb;
use crate::imagery::decode_rgb_of;
use crate::imagery::nearest_resize_of;
use crate::imagery::resize_nearest;
use crate::index::ContentIndex;
use crate::index::EntryModel;
use crate::index::bytes_eq;

verus! {

broadcast use vstd::std_specs::hash::group_hash_axioms;

/// The bytes of the first snapshot file with the given path.
pub open spec fn lookup_file(fs: Seq<(Seq<u8>, Seq<u8>)>, path: Seq<u8>) -> Option<Seq<u8>>
    decreases fs.len(),
{
    if fs.len() == 0 {
        None
    } else if fs.first().0 == path {
        Some(fs.first().1)
    } else {
        lookup_file(fs.drop_first(), path)
    }
}

proof fn lemma_lookup_file_found(fs: Seq<(Seq<u8>, Seq<u8>)>, path: Seq<u8>, i: int)
    requires
        0 <= i < fs.len(),
        fs[i].0 == path,
        forall|k: int| 0 <= k < i ==> fs[k].0 != path,
    ensures
        lookup_file(fs, path) == Some(fs[i].1),
    decreases fs.len(),
{
    if i == 0 {
    } else {
        assert(fs.first().0 != path);
        assert(fs.drop_first()[i - 1] == fs[i]);
        assert(forall|k: int| 0 <= k < i - 1 ==> fs.drop_first()[k] == fs[k + 1]);
        lemma_lookup_file_found(fs.drop_first(), path, i - 1);
    }
}

proof fn lemma_lookup_file_none(fs: Seq<(Seq<u8>, Seq<u8>)>, path: Seq<u8>)
    requires
        forall|k: int| 0 <= k < fs.len() ==> fs[k].0 != path,
    ensures
        lookup_file(fs, path) == None::<Seq<u8>>,
    decreases fs.len(),
{
    if fs.len() > 0 {
        assert(forall|k: int| 0 <= k < fs.len() - 1 ==> fs.drop_first()[k] == fs[k + 1]);
        lemma_lookup_file_none(fs.drop_first(), path);
    }
}

/// Finds the bytes of the snapshot file with the given path.
pub fn find_file<'a>(files: &'a Vec<(Vec<u8>, Vec<u8>)>, path: &Vec<u8>) -> (r: Option<&'a Vec<
    u8,
>>)
    ensures
        match r {
            Some(b) => lookup_file(crate::index::file_views(files@), path@) == Some(b@),
            None => lookup_file(crate::index::file_views(files@), path@) == None::<Seq<u8>>,
        },
{
    let ghost fv = crate::index::file_views(files@);
    let n: usize = files.len();
    let mut i: usize = 0;
    while i < n
        invariant
            0 <= i <= n,
            n == files@.len(),
            fv == crate::index::file_views(files@),
            forall|k: int| 0 <= k < i ==> fv[k].0 != path@,
        decreases n - i,
    {
        if bytes_eq(&files[i].0, path) {
            proof {
                lemma_lookup_file_found(fv, path@, i as int);
            }
            return Some(&files[i].1);
        }
        i = i + 1;
    }
    proof {
        lemma_lookup_file_none(fv, path@);
    }
    None
}

/// What entry `i` of the index resolves to at tile dimension `dim`: its
/// file's bytes found in the snapshot, decoded, and resampled to
/// `dim x dim`; nothing when the file is missing or no longer decodes.
pub open spec fn tile_spec(
    fs: Seq<(Seq<u8>, Seq<u8>)>,
    index: Seq<EntryModel>,
    i: int,
    dim: u32,
) -> Option<Seq<(u8, u8, u8)>>
    recommends
        0 <= i < index.len(),
{
    match lookup_file(fs, index[i].path) {
        Some(bytes) => match decode_rgb_of(bytes) {
            Some((w, h, raw)) => if w > 0 && h > 0 {
                Some(triples_of(nearest_resize_of(w, h, raw, dim, dim)))
            } else {
                None
            },
            None => None,
        },
        None => None,
    }
}

/// A memo of decoded-and-resampled tiles, keyed by index entry. Purely an
/// in-memory optimization, created empty for a run.
pub struct TileCache {
    pub map: HashMap<usize, RgbImage>,
}

impl TileCache {
    /// The memo's contents as a map from entry position to tile image.
    pub open spec fn view(&self) -> Map<usize, RgbImage> {
        self.map@
    }

    /// Every memoized tile is exactly what resolving that entry yields.
    pub open spec fn consistent_with(
        &self,
        fs: Seq<(Seq<u8>, Seq<u8>)>,
        index: Seq<EntryModel>,
        dim: u32,
    ) -> bool {
        forall|i: usize|
            #[trigger] self@.contains_key(i) ==> i < index.len() && self@[i].wf() && self@[
                i
            ].width == dim && self@[i].height == dim && tile_spec(fs, index, i as int, dim)
                == Some(self@[i].pixels@)
    }

    /// An empty memo, consistent with any snapshot and index.
    pub fn new() -> (r: TileCache)
        ensures
            r@ =~= Map::<usize, RgbImage>::empty(),
            forall|fs: Seq<(Seq<u8>, Seq<u8>)>, index: Seq<EntryModel>, dim: u32|
                r.consistent_with(fs, index, dim),
    {
        let c = TileCache { map: HashMap::new() };
        proof {
            assert forall|fs: Seq<(Seq<u8>, Seq<u8>)>, index: Seq<EntryModel>, dim: u32|
                c.consistent_with(fs, index, dim) by {
                assert(c@ =~= Map::<usize, RgbImage>::empty());
            }
        }
        c
    }

    /// A copy of the memoized tile for an entry, if one is stored. The
    /// check half of the cache's check-compute-store discipline.
    pub fn get(&self, i: usize) -> (r: Option<RgbImage>)
        ensures
            match r {
                Some(img) => self@.contains_key(i) && img.width == self@[i].width && img.height
                    == self@[i].height && img.pixels@ == self@[i].pixels@,
                None => !self@.contains_key(i),
            },
    {
        match self.map.get(&i) {
            Some(img) => Some(img.duplicate()),
            None => None,
        }
    }

    /// Memoizes a resolved tile for an entry. The tile must be exactly
    /// what resolving that entry yields — `resolve_tile` hands one back —
    /// so the memo never holds anything else. The store half of the
    /// check-compute-store discipline.
    pub fn store(
        &mut self,
        files: &Vec<(Vec<u8>, Vec<u8>)>,
        index: &ContentIndex,
        i: usize,
        dim: u32,
        tile: RgbImage,
    )
        requires
            old(self).consistent_with(crate::index::file_views(files@), index@, dim),
            i < index@.len(),
            tile.wf(),
            tile.width == dim,
            tile.height == dim,
            tile_spec(crate::index::file_views(files@), index@, i as int, dim) == Some(
                tile.pixels@,
            ),
        ensures
            final(self).consistent_with(crate::index::file_views(files@), index@, dim),
    {
        let ghost fv = crate::index::file_views(files@);
        let ghost tv = tile;
        self.map.insert(i, tile);
        proof {
            assert forall|k: usize| #[trigger] self@.contains_key(k) implies k < index@.len()
                && self@[k].wf() && self@[k].width == dim && self@[k].height == dim && tile_spec(
                fv,
                index@,
                k as int,
                dim,
            ) == Some(self@[k].pixels@) by {
                if k != i {
                    assert(old(self)@.contains_key(k));
                    assert(old(self)@[k] == self@[k]);
                } else {
                    assert(self@[i] == tv);
                }
            }
        }
    }

    /// Resolves an entry to its tile image at dimension `dim`, through the
    /// memo: a hit returns the stored tile, a miss decodes and resamples
    /// the entry's bytes and records the result.
    pub fn resolve(
        &mut self,
        files: &Vec<(Vec<u8>, Vec<u8>)>,
        index: &ContentIndex,
        i: usize,
        dim: u32,
    ) -> (r: Result<RgbImage, MosaicError>)
        requires
            old(self).consistent_with(crate::index::file_views(files@), index@, dim),
            i < index@.len(),
            dim >= 1,
        ensures
            final(self).consistent_with(crate::index::file_views(files@), index@, dim),
            match r {
                Ok(img) => img.wf() && img.width == dim && img.height == dim && tile_spec(
                    crate::index::file_views(files@),
                    index@,
                    i as int,
                    dim,
                ) == Some(img.pixels@),
                Err(e) => e == MosaicError::TileUnavailable && tile_spec(
                    crate::index::file_views(files@),
                    index@,
                    i as int,
                    dim,
                ) == None::<Seq<(u8, u8, u8)>>,
            },
    {
        match self.get(i) {
            Some(img) => {
                return Ok(img);
            },
            None => {},
        }
        match resolve_tile(files, index, i, dim) {
            Ok(img) => {
                let dup = img.duplicate();
                proof {
                    assert(dup.wf());
                }
                self.store(files, index, i, dim, dup);
                Ok(img)
            },
            Err(e) => Err(e),
        }
    }
}

/// Decodes and resamples one entry's bytes to a `dim`-square tile, without
/// touching any memo: the compute half of the cache discipline, a pure
/// function of the snapshot, so a caller may run it outside any lock and
/// store the result afterwards.
pub fn resolve_tile(
    files: &Vec<(Vec<u8>, Vec<u8>)>,
    index: &ContentIndex,
    i: usize,
    dim: u32,
) -> (r: Result<RgbImage, MosaicError>)
    requires
        i < index@.len(),
        dim >= 1,
    ensures
        match r {
            Ok(img) => img.wf() && img.width == dim && img.height == dim && tile_spec(
                crate::index::file_views(files@),
                index@,
                i as int,
                dim,
            ) == Some(img.pixels@),
            Err(e) => e == MosaicError::TileUnavailable && tile_spec(
                crate::index::file_views(files@),
                index@,
                i as int,
                dim,
            ) == None::<Seq<(u8, u8, u8)>>,
        },
{
    let ghost fv = crate::index::file_views(files@);
    let bytes = match find_file(files, &index.entries[i].path) {
        Some(b) => b,
        None => {
            return Err(MosaicError::TileUnavailable);
        },
    };
    let decoded = match decode_rgb(bytes) {
        Some(d) => d,
        None => {
            return Err(MosaicError::TileUnavailable);
        },
    };
    let (w, h, raw) = decoded;
    if w == 0 || h == 0 {
        return Err(MosaicError::TileUnavailable);
    }
    let resized = resize_nearest(&raw, w, h, dim, dim);
    let ghost area = dim as int * dim as int;
    proof {
        assert(area >= 0) by (nonlinear_arith)
            requires area == dim as int * dim as int, dim >= 1;
        assert(3 * (dim as int) * (dim as int) == 3 * area) by (nonlinear_arith)
            requires area == dim as int * dim as int;
        assert((3 * area) % 3 == 0 && (3 * area) / 3 == area) by (nonlinear_arith)
            requires area >= 0;
    }
    let pixels = to_triples(&resized);
    let img = RgbImage { width: dim, height: dim, pixels };
    proof {
        assert(img.pixels@.len() == area);
        assert(img.wf());
        assert(tile_spec(fv, index@, i as int, dim) == Some(img.pixels@));
    }
    Ok(img)
}

} // verus!
