//! The region compositor.
//!
//! The block-aligned source image is a grid of `block_size`-square regions.
//! Each region's average color picks a library entry, the entry resolves to
//! a tile resampled to `block_size * magnification`, and the tile is copied
//! into the output canvas at the region's offset. Regions write disjoint
//! pixel ranges, every output pixel is written by exactly one region, and
//! the whole canvas is a function of the source, the index and the library
//! snapshot alone — scheduling cannot change it.
use vstd::prelude::*;
use crate::MosaicError;
use crate::color::average_color;
use crate::color::average_of;
use crate::image_data::RgbImage;
use crate::image_data::sub_image_pixels;
use crate::image_data::window_of;
use crate::index::ContentIndex;
use crate::index::EntryModel;
use crate::index::file_views;
use crate::matcher::ColorMatchCache;
use crate::matcher::closest;
use crate::matcher::closest_cached;
use crate::matcher::closest_idx_spec;
use crate::params::MosaicConfig;
use crate::tile::TileCache;
use crate::tile::tile_spec;

verus! {

/// The average color of the `g`-square region at grid position
/// `(rx, ry)` of the source.
pub open spec fn region_target(src: RgbImage, g: u32, rx: int, ry: int) -> (u8, u8, u8) {
    average_of(window_of(src, rx * g, ry * g, g as int, g as int))
}

/// The index entry the matcher chooses for that region.
pub open spec fn region_entry(
    index: Seq<EntryModel>,
    src: RgbImage,
    g: u32,
    rx: int,
    ry: int,
) -> int {
    closest_idx_spec(index, region_target(src, g, rx, ry))
}

/// The tile pixels that region receives: the chosen entry resolved at the
/// tile dimension.
pub open spec fn region_tile(
    fs: Seq<(Seq<u8>, Seq<u8>)>,
    index: Seq<EntryModel>,
    src: RgbImage,
    g: u32,
    dim: u32,
    rx: int,
    ry: int,
) -> Option<Seq<(u8, u8, u8)>> {
    tile_spec(fs, index, region_entry(index, src, g, rx, ry), dim)
}

/// Every region of the grid resolves to a tile.
pub open spec fn all_tiles_available(
    fs: Seq<(Seq<u8>, Seq<u8>)>,
    index: Seq<EntryModel>,
    src: RgbImage,
    g: u32,
    dim: u32,
) -> bool {
    forall|rx: int, ry: int|
        0 <= rx < src.width as int / g as int && 0 <= ry < src.height as int / g as int ==> (
        #[trigger] region_tile(fs, index, src, g, dim, rx, ry)) is Some
}

/// The compositing contract, pixel for pixel: the canvas has the magnified
/// dimensions, and the pixel at `(X, Y)` is the corresponding pixel of the
/// tile of the region containing `(X, Y)`.
pub open spec fn mosaic_ok(
    fs: Seq<(Seq<u8>, Seq<u8>)>,
    index: Seq<EntryModel>,
    src: RgbImage,
    g: u32,
    m: u32,
    out: RgbImage,
) -> bool {
    let gm = g as int * m as int;
    &&& out.wf()
    &&& out.width as int == src.width as int * m as int
    &&& out.height as int == src.height as int * m as int
    &&& forall|x: int, y: int|
        0 <= x < out.width as int && 0 <= y < out.height as int ==> {
            let t = #[trigger] region_tile(fs, index, src, g, (g * m) as u32, x / gm, y / gm);
            t is Some && out.pix(x, y) == t.unwrap()[(y % gm) * gm + (x % gm)]
        }
}

/// Division places a value in its block: `q * d <= x < (q + 1) * d` pins
/// the quotient and remainder down.
proof fn lemma_div_in_block(x: int, q: int, d: int)
    requires
        d >= 1,
        q >= 0,
        q * d <= x < (q + 1) * d,
    ensures
        x / d == q,
        x % d == x - q * d,
{
    assert(x / d == q && x % d == x - q * d) by (nonlinear_arith)
        requires d >= 1, q >= 0, q * d <= x < (q + 1) * d;
}

/// A value below `n * d` has quotient below `n`.
proof fn lemma_div_bound(x: int, n: int, d: int)
    requires
        d >= 1,
        0 <= x,
        x < n * d,
    ensures
        0 <= x / d < n,
{
    assert(0 <= x / d < n) by (nonlinear_arith)
        requires d >= 1, 0 <= x, x < n * d;
}

/// Distinct coordinates occupy distinct row-major offsets.
proof fn lemma_offset_injective(w: int, x1: int, y1: int, x2: int, y2: int)
    requires
        0 <= x1 < w,
        0 <= x2 < w,
        0 <= y1,
        0 <= y2,
        y1 * w + x1 == y2 * w + x2,
    ensures
        x1 == x2 && y1 == y2,
{
    assert(x1 == x2 && y1 == y2) by (nonlinear_arith)
        requires
            0 <= x1 < w,
            0 <= x2 < w,
            0 <= y1,
            0 <= y2,
            y1 * w + x1 == y2 * w + x2,
    ;
}

/// Copies a tile into the canvas at grid position `(rx, ry)`: exactly the
/// region's `dim`-square pixel block takes the tile's pixels, every other
/// canvas pixel keeps its value.
pub fn place_tile(out: &mut RgbImage, rx: u32, ry: u32, tile: &RgbImage, dim: u32)
    requires
        old(out).wf(),
        tile.wf(),
        tile.width == dim,
        tile.height == dim,
        dim >= 1,
        (rx as int + 1) * dim as int <= old(out).width as int,
        (ry as int + 1) * dim as int <= old(out).height as int,
    ensures
        final(out).wf(),
        final(out).width == old(out).width,
        final(out).height == old(out).height,
        forall|x: int, y: int|
            0 <= x < old(out).width as int && 0 <= y < old(out).height as int ==> (
            #[trigger] final(out).pix(x, y)) == if rx as int * dim as int <= x < (rx as int + 1)
                * dim as int && ry as int * dim as int <= y < (ry as int + 1) * dim as int {
                tile.pix(x - rx as int * dim as int, y - ry as int * dim as int)
            } else {
                old(out).pix(x, y)
            },
{
    let ghost orig = *old(out);
    proof {
        assert(rx as int * dim as int >= 0 && (rx as int + 1) * dim as int == rx as int
            * dim as int + dim as int) by (nonlinear_arith);
        assert(ry as int * dim as int >= 0 && (ry as int + 1) * dim as int == ry as int
            * dim as int + dim as int) by (nonlinear_arith);
    }
    let x0: u32 = rx * dim;
    let y0: u32 = ry * dim;
    let mut tx: u32 = 0;
    while tx < dim
        invariant
            0 <= tx <= dim,
            out.wf(),
            out.width == orig.width,
            out.height == orig.height,
            tile.wf(),
            tile.width == dim,
            tile.height == dim,
            dim >= 1,
            x0 == rx as int * dim as int,
            y0 == ry as int * dim as int,
            x0 + dim <= orig.width,
            y0 + dim <= orig.height,
            forall|x: int, y: int|
                0 <= x < orig.width as int && 0 <= y < orig.height as int ==> (
                #[trigger] out.pix(x, y)) == if x0 <= x < x0 + tx && y0 <= y < y0 + dim as int {
                    tile.pix(x - x0, y - y0)
                } else {
                    orig.pix(x, y)
                },
        decreases dim - tx,
    {
        let mut ty: u32 = 0;
        while ty < dim
            invariant
                0 <= ty <= dim,
                0 <= tx < dim,
                out.wf(),
                out.width == orig.width,
                out.height == orig.height,
                tile.wf(),
                tile.width == dim,
                tile.height == dim,
                dim >= 1,
                x0 == rx as int * dim as int,
                y0 == ry as int * dim as int,
                x0 + dim <= orig.width,
                y0 + dim <= orig.height,
                forall|x: int, y: int|
                    0 <= x < orig.width as int && 0 <= y < orig.height as int ==> (
                    #[trigger] out.pix(x, y)) == if (x0 <= x < x0 + tx && y0 <= y < y0
                        + dim as int) || (x == x0 + tx && y0 <= y < y0 + ty) {
                        tile.pix(x - x0, y - y0)
                    } else {
                        orig.pix(x, y)
                    },
            decreases dim - ty,
        {
            let p = tile.get(tx, ty);
            let ghost before = *out;
            out.set(x0 + tx, y0 + ty, p);
            proof {
                let w = orig.width as int;
                let h = orig.height as int;
                let sx = x0 + tx as int;
                let sy = y0 + ty as int;
                assert(0 <= sy * w + sx < w * h) by (nonlinear_arith)
                    requires 0 <= sx < w, 0 <= sy < h;
                assert forall|x: int, y: int|
                    0 <= x < orig.width as int && 0 <= y < orig.height as int implies (
                #[trigger] out.pix(x, y)) == if (x0 <= x < x0 + tx && y0 <= y < y0 + dim as int)
                    || (x == x0 + tx && y0 <= y < y0 + ty + 1) {
                    tile.pix(x - x0, y - y0)
                } else {
                    orig.pix(x, y)
                } by {
                    assert(0 <= y * w + x < w * h) by (nonlinear_arith)
                        requires 0 <= x < w, 0 <= y < h;
                    if x == sx && y == sy {
                        assert(out.pix(x, y) == p);
                    } else {
                        if y * w + x == sy * w + sx {
                            lemma_offset_injective(w, x, y, sx, sy);
                        }
                        assert(out.pix(x, y) == before.pix(x, y));
                    }
                }
            }
            ty = ty + 1;
        }
        proof {
            assert forall|x: int, y: int|
                0 <= x < orig.width as int && 0 <= y < orig.height as int implies (
            #[trigger] out.pix(x, y)) == if x0 <= x < x0 + tx + 1 && y0 <= y < y0 + dim as int {
                tile.pix(x - x0, y - y0)
            } else {
                orig.pix(x, y)
            } by {
                assert(out.pix(x, y) == if (x0 <= x < x0 + tx && y0 <= y < y0 + dim as int) || (x
                    == x0 + tx && y0 <= y < y0 + dim as int) {
                    tile.pix(x - x0, y - y0)
                } else {
                    orig.pix(x, y)
                });
            }
        }
        tx = tx + 1;
    }
}

/// Renders one region: averages its pixels, matches an entry, resolves the
/// tile. The caches only speed this up; the result is the region's tile as
/// the specification names it.
pub fn render_region(
    source: &RgbImage,
    index: &ContentIndex,
    files: &Vec<(Vec<u8>, Vec<u8>)>,
    ccache: &mut ColorMatchCache,
    use_cache: bool,
    tcache: &mut TileCache,
    rx: u32,
    ry: u32,
    g: u32,
    m: u32,
) -> (r: Result<RgbImage, MosaicError>)
    requires
        source.wf(),
        g >= 1,
        m >= 1,
        g as int * m as int <= u32::MAX,
        (rx as int + 1) * g as int <= source.width as int,
        (ry as int + 1) * g as int <= source.height as int,
        old(ccache).consistent_with(index@),
        old(tcache).consistent_with(file_views(files@), index@, (g as int * m as int) as u32),
    ensures
        final(ccache).consistent_with(index@),
        final(tcache).consistent_with(file_views(files@), index@, (g as int * m as int) as u32),
        match r {
            Ok(tile) => {
                let dim = (g as int * m as int) as u32;
                index@.len() > 0 && tile.wf() && tile.width == dim && tile.height == dim
                    && region_tile(file_views(files@), index@, *source, g, dim, rx as int, ry as int)
                    == Some(tile.pixels@)
            },
            Err(e) => (e == MosaicError::NoTilesAvailable && index@.len() == 0) || (e
                == MosaicError::TileUnavailable && index@.len() > 0 && region_tile(
                file_views(files@),
                index@,
                *source,
                g,
                (g as int * m as int) as u32,
                rx as int,
                ry as int,
            ) is None),
        },
{
    proof {
        assert(rx as int * g as int >= 0 && (rx as int + 1) * g as int == rx as int * g as int
            + g as int) by (nonlinear_arith);
        assert(ry as int * g as int >= 0 && (ry as int + 1) * g as int == ry as int * g as int
            + g as int) by (nonlinear_arith);
        assert(g as int * g as int >= 1 && g as int * m as int >= 1) by (nonlinear_arith)
            requires g >= 1, m >= 1;
    }
    let dim: u32 = g * m;
    let block = sub_image_pixels(source, rx * g, ry * g, g, g);
    let avg = average_color(&block);
    proof {
        assert(avg == region_target(*source, g, rx as int, ry as int));
    }
    let choice = if use_cache {
        closest_cached(ccache, index, avg)
    } else {
        closest(index, avg)
    };
    let entry = match choice {
        Ok(i) => i,
        Err(e) => {
            return Err(e);
        },
    };
    match tcache.resolve(files, index, entry, dim) {
        Ok(tile) => Ok(tile),
        Err(e) => Err(e),
    }
}

/// A region earlier than position `(crx, cry)` in column-major order.
spec fn region_done(qx: int, qy: int, crx: int, cry: int) -> bool {
    qx < crx || (qx == crx && qy < cry)
}

/// The canvas already agrees with the mosaic on every region before
/// `(crx, cry)` in column-major order.
spec fn partial_ok(
    fs: Seq<(Seq<u8>, Seq<u8>)>,
    index: Seq<EntryModel>,
    src: RgbImage,
    g: u32,
    m: u32,
    out: RgbImage,
    crx: int,
    cry: int,
) -> bool {
    let gm = g as int * m as int;
    forall|x: int, y: int|
        0 <= x < out.width as int && 0 <= y < out.height as int && region_done(
            x / gm,
            y / gm,
            crx,
            cry,
        ) ==> {
            let t = #[trigger] region_tile(fs, index, src, g, (g as int * m as int) as u32, x / gm, y / gm);
            t is Some && out.pix(x, y) == t.unwrap()[(y % gm) * gm + (x % gm)]
        }
}

/// Composites the mosaic: partitions the block-aligned source into its
/// grid of regions, renders each region's tile, and writes it at the
/// region's offset. Succeeds exactly when the grid is empty or every
/// region resolves against a non-empty index; the canvas then satisfies
/// the pixel-for-pixel mosaic contract.
#[verifier::loop_isolation(false)]
pub fn compose(
    source: &RgbImage,
    index: &ContentIndex,
    files: &Vec<(Vec<u8>, Vec<u8>)>,
    config: &MosaicConfig,
) -> (r: Result<RgbImage, MosaicError>)
    requires
        source.wf(),
        config.wf(),
        source.width as int % config.block_size as int == 0,
        source.height as int % config.block_size as int == 0,
        source.width as int * config.magnification as int <= u32::MAX,
        source.height as int * config.magnification as int <= u32::MAX,
        (source.width as int * config.magnification as int) * (source.height as int
            * config.magnification as int) <= usize::MAX,
    ensures
        r is Ok <==> (source.width as int / config.block_size as int == 0 || source.height as int
            / config.block_size as int == 0) || (index@.len() > 0 && all_tiles_available(
            file_views(files@),
            index@,
            *source,
            config.block_size,
            (config.block_size as int * config.magnification as int) as u32,
        )),
        r matches Ok(out) ==> mosaic_ok(
            file_views(files@),
            index@,
            *source,
            config.block_size,
            config.magnification,
            out,
        ),
        r matches Err(e) ==> if index@.len() == 0 {
            e == MosaicError::NoTilesAvailable
        } else {
            e == MosaicError::TileUnavailable
        },
{
    let g: u32 = config.block_size;
    let m: u32 = config.magnification;
    let ghost fv = file_views(files@);
    let ghost gm: int = g as int * m as int;
    proof {
        assert(gm >= 1 && gm <= u32::MAX) by (nonlinear_arith)
            requires gm == g as int * m as int, g >= 1, m >= 1, gm <= u32::MAX;
    }
    let dim: u32 = g * m;
    let ow: u32 = source.width * m;
    let oh: u32 = source.height * m;
    let mut out = RgbImage::blank(ow, oh);
    let gw: u32 = source.width / g;
    let gh: u32 = source.height / g;
    proof {
        assert(source.width as int == gw as int * g as int && source.height as int == gh as int
            * g as int) by (nonlinear_arith)
            requires
                gw as int == source.width as int / g as int,
                gh as int == source.height as int / g as int,
                source.width as int % g as int == 0,
                source.height as int % g as int == 0,
                g >= 1,
        ;
        assert(ow as int == gw as int * gm && oh as int == gh as int * gm) by (nonlinear_arith)
            requires
                ow as int == source.width as int * m as int,
                oh as int == source.height as int * m as int,
                source.width as int == gw as int * g as int,
                source.height as int == gh as int * g as int,
                gm == g as int * m as int,
        ;
    }
    if gw == 0 || gh == 0 {
        proof {
            assert(ow as int == 0 || oh as int == 0);
        }
        return Ok(out);
    }
    if index.entries.len() == 0 {
        return Err(MosaicError::NoTilesAvailable);
    }
    let mut ccache = ColorMatchCache::new();
    let mut tcache = TileCache::new();
    let mut rx: u32 = 0;
    while rx < gw
        invariant
            0 <= rx <= gw,
            out.wf(),
            out.width == ow,
            out.height == oh,
            ccache.consistent_with(index@),
            tcache.consistent_with(fv, index@, dim),
            partial_ok(fv, index@, *source, g, m, out, rx as int, 0),
        decreases gw - rx,
    {
        let mut ry: u32 = 0;
        proof {
            assert(partial_ok(fv, index@, *source, g, m, out, rx as int, 0));
        }
        while ry < gh
            invariant
                0 <= ry <= gh,
                rx < gw,
                out.wf(),
                out.width == ow,
                out.height == oh,
                ccache.consistent_with(index@),
                tcache.consistent_with(fv, index@, dim),
                partial_ok(fv, index@, *source, g, m, out, rx as int, ry as int),
            decreases gh - ry,
        {
            proof {
                assert((rx as int + 1) * g as int <= gw as int * g as int && (ry as int + 1)
                    * g as int <= gh as int * g as int) by (nonlinear_arith)
                    requires rx as int + 1 <= gw as int, ry as int + 1 <= gh as int, g >= 1;
            }
            let tile = match render_region(
                source,
                index,
                files,
                &mut ccache,
                config.color_caching,
                &mut tcache,
                rx,
                ry,
                g,
                m,
            ) {
                Ok(t) => t,
                Err(e) => {
                    proof {
                        assert(index@.len() > 0);
                        assert(region_tile(fv, index@, *source, g, dim, rx as int, ry as int)
                            is None);
                        assert((rx as int) < source.width as int / g as int && (ry as int)
                            < source.height as int / g as int);
                        assert(!all_tiles_available(fv, index@, *source, g, dim));
                    }
                    return Err(e);
                },
            };
            proof {
                assert((rx as int + 1) * dim as int <= gw as int * dim as int && (ry as int + 1)
                    * dim as int <= gh as int * dim as int) by (nonlinear_arith)
                    requires rx as int + 1 <= gw as int, ry as int + 1 <= gh as int, dim >= 1;
            }
            let ghost before = out;
            place_tile(&mut out, rx, ry, &tile, dim);
            proof {
                lemma_partial_step(
                    fv,
                    index@,
                    *source,
                    g,
                    m,
                    before,
                    out,
                    tile,
                    rx as int,
                    ry as int,
                );
            }
            ry = ry + 1;
        }
        proof {
            assert forall|x: int, y: int|
                0 <= x < out.width as int && 0 <= y < out.height as int && region_done(
                    x / gm,
                    y / gm,
                    rx as int + 1,
                    0,
                ) implies {
                let t = #[trigger] region_tile(fv, index@, *source, g, (g as int * m as int) as u32, x / gm, y / gm);
                t is Some && out.pix(x, y) == t.unwrap()[(y % gm) * gm + (x % gm)]
            } by {
                lemma_div_bound(y, gh as int, gm);
                assert(region_done(x / gm, y / gm, rx as int, gh as int));
            }
        }
        rx = rx + 1;
    }
    proof {
        assert forall|x: int, y: int|
            0 <= x < out.width as int && 0 <= y < out.height as int implies {
            let t = #[trigger] region_tile(fv, index@, *source, g, (g as int * m as int) as u32, x / gm, y / gm);
            t is Some && out.pix(x, y) == t.unwrap()[(y % gm) * gm + (x % gm)]
        } by {
            lemma_div_bound(x, gw as int, gm);
            lemma_div_bound(y, gh as int, gm);
            assert(region_done(x / gm, y / gm, gw as int, 0));
        }
        assert(all_tiles_available(fv, index@, *source, g, dim)) by {
            assert forall|qx: int, qy: int|
                0 <= qx < source.width as int / g as int && 0 <= qy < source.height as int
                    / g as int implies (#[trigger] region_tile(
                fv,
                index@,
                *source,
                g,
                dim,
                qx,
                qy,
            )) is Some by {
                let x = qx * gm;
                let y = qy * gm;
                assert((qx + 1) * gm <= gw as int * gm && (qy + 1) * gm <= gh as int * gm
                    && qx * gm >= 0 && qy * gm >= 0 && (qx + 1) * gm == qx * gm + gm && (qy + 1)
                    * gm == qy * gm + gm) by (nonlinear_arith)
                    requires 0 <= qx < gw as int, 0 <= qy < gh as int, gm >= 1;
                lemma_div_in_block(x, qx, gm);
                lemma_div_in_block(y, qy, gm);
                assert(0 <= x < out.width as int && 0 <= y < out.height as int);
            }
        }
    }
    Ok(out)
}

/// One placed tile extends the processed part of the canvas by exactly its
/// region.
proof fn lemma_partial_step(
    fs: Seq<(Seq<u8>, Seq<u8>)>,
    index: Seq<EntryModel>,
    src: RgbImage,
    g: u32,
    m: u32,
    before: RgbImage,
    after: RgbImage,
    tile: RgbImage,
    rx: int,
    ry: int,
)
    requires
        g >= 1,
        m >= 1,
        g as int * m as int <= u32::MAX,
        rx >= 0,
        ry >= 0,
        before.wf(),
        after.wf(),
        after.width == before.width,
        after.height == before.height,
        tile.wf(),
        tile.width as int == g as int * m as int,
        tile.height as int == g as int * m as int,
        (rx + 1) * (g as int * m as int) <= before.width as int,
        (ry + 1) * (g as int * m as int) <= before.height as int,
        partial_ok(fs, index, src, g, m, before, rx, ry),
        region_tile(fs, index, src, g, (g as int * m as int) as u32, rx, ry) == Some(
            tile.pixels@,
        ),
        forall|x: int, y: int|
            0 <= x < before.width as int && 0 <= y < before.height as int ==> (
            #[trigger] after.pix(x, y)) == if rx * (g as int * m as int) <= x < (rx + 1) * (
            g as int * m as int) && ry * (g as int * m as int) <= y < (ry + 1) * (g as int
                * m as int) {
                tile.pix(x - rx * (g as int * m as int), y - ry * (g as int * m as int))
            } else {
                before.pix(x, y)
            },
    ensures
        partial_ok(fs, index, src, g, m, after, rx, ry + 1),
{
    let gm = g as int * m as int;
    assert(gm >= 1) by (nonlinear_arith)
        requires g >= 1, m >= 1, gm == g as int * m as int;
    assert(rx * gm >= 0 && ry * gm >= 0 && (rx + 1) * gm == rx * gm + gm && (ry + 1) * gm == ry
        * gm + gm) by (nonlinear_arith)
        requires rx >= 0, ry >= 0, gm >= 1;
    assert forall|x: int, y: int|
        0 <= x < after.width as int && 0 <= y < after.height as int && region_done(
            x / gm,
            y / gm,
            rx,
            ry + 1,
        ) implies {
        let t = #[trigger] region_tile(fs, index, src, g, (g as int * m as int) as u32, x / gm, y / gm);
        t is Some && after.pix(x, y) == t.unwrap()[(y % gm) * gm + (x % gm)]
    } by {
        let qx = x / gm;
        let qy = y / gm;
        assert(qx * gm <= x < (qx + 1) * gm && x % gm == x - qx * gm && qx >= 0)
            by (nonlinear_arith)
            requires gm >= 1, x >= 0, qx == x / gm;
        assert(qy * gm <= y < (qy + 1) * gm && y % gm == y - qy * gm && qy >= 0)
            by (nonlinear_arith)
            requires gm >= 1, y >= 0, qy == y / gm;
        if qx == rx && qy == ry {
            assert(rx * gm <= x < (rx + 1) * gm && ry * gm <= y < (ry + 1) * gm);
            assert(after.pix(x, y) == tile.pix(x - rx * gm, y - ry * gm));
            assert(tile.pix(x - rx * gm, y - ry * gm) == tile.pixels@[(y - ry * gm) * gm + (x - rx
                * gm)]);
        } else {
            assert(region_done(qx, qy, rx, ry));
            assert(!(rx * gm <= x < (rx + 1) * gm && ry * gm <= y < (ry + 1) * gm)) by {
                if rx * gm <= x < (rx + 1) * gm && ry * gm <= y < (ry + 1) * gm {
                    lemma_div_in_block(x, rx, gm);
                    lemma_div_in_block(y, ry, gm);
                }
            }
            assert(after.pix(x, y) == before.pix(x, y));
        }
    }
}

/// Determinism: two canvases that both satisfy the compositing contract
/// for the same source, index and snapshot agree pixel for pixel. The
/// mosaic is a function of its inputs alone, so however the regions are
/// scheduled — one worker or many, in any order — the output bytes are
/// identical.
pub proof fn lemma_mosaic_deterministic(
    fs: Seq<(Seq<u8>, Seq<u8>)>,
    index: Seq<EntryModel>,
    src: RgbImage,
    g: u32,
    m: u32,
    out1: RgbImage,
    out2: RgbImage,
)
    requires
        mosaic_ok(fs, index, src, g, m, out1),
        mosaic_ok(fs, index, src, g, m, out2),
    ensures
        out1.width == out2.width,
        out1.height == out2.height,
        out1.pixels@ == out2.pixels@,
{
    let w = out1.width as int;
    let h = out1.height as int;
    assert(out1.pixels@.len() == out2.pixels@.len());
    assert forall|k: int| 0 <= k < out1.pixels@.len() implies out1.pixels@[k] == out2.pixels@[k] by {
        assert(w * h == out1.pixels@.len());
        if w >= 1 {
            let x = k % w;
            let y = k / w;
            assert(0 <= x < w && 0 <= y && y * w + x == k) by (nonlinear_arith)
                requires w >= 1, 0 <= k, x == k % w, y == k / w;
            assert(y < h) by (nonlinear_arith)
                requires w >= 1, 0 <= k < w * h, y == k / w;
            let gm = g as int * m as int;
            let t = region_tile(fs, index, src, g, (g * m) as u32, x / gm, y / gm);
            assert(t is Some && out1.pix(x, y) == t.unwrap()[(y % gm) * gm + (x % gm)]);
            assert(t is Some && out2.pix(x, y) == t.unwrap()[(y % gm) * gm + (x % gm)]);
            assert(out1.pix(x, y) == out2.pix(x, y));
        } else {
            assert(w * h == 0) by (nonlinear_arith)
                requires w == 0;
        }
    }
    assert(out1.pixels@ =~= out2.pixels@);
}

} // verus!
