//! Plain RGB pixel buffers.
//!
//! The pipeline works on images as row-major buffers of `(r, g, b)` pixels
//! with explicit dimensions, so every pixel the logic reads or writes is a
//! plain value. Decoding, resampling and encoding are done elsewhere; this
//! module only holds and addresses pixels.
use vstd::prelude::*;

verus! {

/// A decoded RGB image: `width * height` pixels, row-major.
#[derive(Debug)]
pub struct RgbImage {
    pub width: u32,
    pub height: u32,
    pub pixels: Vec<(u8, u8, u8)>,
}

impl RgbImage {
    /// The buffer holds exactly one pixel per coordinate.
    pub open spec fn wf(&self) -> bool {
        self.pixels@.len() == self.width as int * self.height as int
    }

    /// The pixel at column `x`, row `y`.
    pub open spec fn pix(&self, x: int, y: int) -> (u8, u8, u8)
        recommends
            0 <= x < self.width,
            0 <= y < self.height,
    {
        self.pixels@[y * self.width as int + x]
    }

    proof fn lemma_offset_in_range(&self, x: int, y: int)
        requires
            self.wf(),
            0 <= x < self.width,
            0 <= y < self.height,
        ensures
            0 <= y * self.width as int + x < self.pixels@.len(),
    {
        let w = self.width as int;
        let h = self.height as int;
        assert(0 <= y * w + x < w * h) by (nonlinear_arith)
            requires 0 <= x < w, 0 <= y < h;
    }

    /// An all-black canvas of the given dimensions.
    pub fn blank(width: u32, height: u32) -> (r: RgbImage)
        requires
            width as int * height as int <= usize::MAX,
        ensures
            r.wf(),
            r.width == width,
            r.height == height,
            forall|i: int| 0 <= i < r.pixels@.len() ==> r.pixels@[i] == (0u8, 0u8, 0u8),
    {
        proof {
            assert(width as int * height as int >= 0) by (nonlinear_arith);
        }
        let n: usize = (width as usize) * (height as usize);
        let mut pixels: Vec<(u8, u8, u8)> = Vec::new();
        let mut i: usize = 0;
        while i < n
            invariant
                0 <= i <= n,
                pixels@.len() == i,
                forall|j: int| 0 <= j < i ==> pixels@[j] == (0u8, 0u8, 0u8),
            decreases n - i,
        {
            pixels.push((0u8, 0u8, 0u8));
            i = i + 1;
        }
        RgbImage { width, height, pixels }
    }

    /// Reads the pixel at `(x, y)`.
    pub fn get(&self, x: u32, y: u32) -> (r: (u8, u8, u8))
        requires
            self.wf(),
            x < self.width,
            y < self.height,
        ensures
            r == self.pix(x as int, y as int),
    {
        let n: usize = self.pixels.len();
        proof {
            self.lemma_offset_in_range(x as int, y as int);
            assert((y as int * self.width as int + x as int) < (n as int));
        }
        self.pixels[(y as usize) * (self.width as usize) + (x as usize)]
    }

    /// Overwrites the pixel at `(x, y)`, leaving every other pixel as it was.
    pub fn set(&mut self, x: u32, y: u32, p: (u8, u8, u8))
        requires
            old(self).wf(),
            x < old(self).width,
            y < old(self).height,
        ensures
            final(self).wf(),
            final(self).width == old(self).width,
            final(self).height == old(self).height,
            final(self).pixels@ == old(self).pixels@.update(
                y as int * old(self).width as int + x as int,
                p,
            ),
    {
        let n: usize = self.pixels.len();
        proof {
            self.lemma_offset_in_range(x as int, y as int);
            assert((y as int * self.width as int + x as int) < (n as int));
        }
        let idx: usize = (y as usize) * (self.width as usize) + (x as usize);
        self.pixels.set(idx, p);
    }

    /// A copy with the same dimensions and the same pixels.
    pub fn duplicate(&self) -> (r: RgbImage)
        ensures
            r.width == self.width,
            r.height == self.height,
            r.pixels@ == self.pixels@,
    {
        let mut pixels: Vec<(u8, u8, u8)> = Vec::new();
        let n: usize = self.pixels.len();
        let mut i: usize = 0;
        while i < n
            invariant
                0 <= i <= n,
                n == self.pixels@.len(),
                pixels@ == self.pixels@.take(i as int),
            decreases n - i,
        {
            pixels.push(self.pixels[i]);
            proof {
                assert(pixels@ =~= self.pixels@.take(i + 1));
            }
            i = i + 1;
        }
        proof {
            assert(self.pixels@.take(n as int) =~= self.pixels@);
        }
        RgbImage { width: self.width, height: self.height, pixels }
    }
}

/// The pixels of a `width x height` window at `(x, y)`, column by column:
/// element `i * height + j` of the result is the source pixel at
/// `(x + i, y + j)`.
pub open spec fn window_of(img: RgbImage, x: int, y: int, width: int, height: int) -> Seq<
    (u8, u8, u8),
> {
    Seq::new((width * height) as nat, |k: int| img.pix(x + k / height, y + k % height))
}

/// Extracts a rectangular window of pixels, column by column.
pub fn sub_image_pixels(img: &RgbImage, x: u32, y: u32, width: u32, height: u32) -> (r: Vec<
    (u8, u8, u8),
>)
    requires
        img.wf(),
        x + width <= img.width,
        y + height <= img.height,
        height >= 1,
    ensures
        r@ == window_of(*img, x as int, y as int, width as int, height as int),
{
    let ghost target = window_of(*img, x as int, y as int, width as int, height as int);
    proof {
        assert(width as int * height as int >= 0) by (nonlinear_arith);
    }
    let mut rgbs: Vec<(u8, u8, u8)> = Vec::new();
    let mut i: u32 = 0;
    while i < width
        invariant
            0 <= i <= width,
            img.wf(),
            x + width <= img.width,
            y + height <= img.height,
            height >= 1,
            rgbs@.len() == i as int * height as int,
            target == window_of(*img, x as int, y as int, width as int, height as int),
            forall|k: int| 0 <= k < rgbs@.len() ==> rgbs@[k] == target[k],
        decreases width - i,
    {
        let mut j: u32 = 0;
        while j < height
            invariant
                0 <= j <= height,
                0 <= i < width,
                img.wf(),
                x + width <= img.width,
                y + height <= img.height,
                height >= 1,
                rgbs@.len() == i as int * height as int + j as int,
                target == window_of(*img, x as int, y as int, width as int, height as int),
                forall|k: int| 0 <= k < rgbs@.len() ==> rgbs@[k] == target[k],
            decreases height - j,
        {
            let p = img.get(x + i, y + j);
            proof {
                let k = i as int * height as int + j as int;
                assert(k < width as int * height as int) by (nonlinear_arith)
                    requires
                        0 <= i < width as int,
                        0 <= j < height as int,
                        k == i as int * height as int + j as int,
                ;
                assert(k / height as int == i as int && k % height as int == j as int)
                    by (nonlinear_arith)
                    requires
                        height as int >= 1,
                        0 <= j < height as int,
                        k == i as int * height as int + j as int,
                ;
                assert(target[k] == img.pix(x as int + i as int, y as int + j as int));
            }
            rgbs.push(p);
            j = j + 1;
        }
        proof {
            assert((i as int + 1) * height as int == i as int * height as int + height as int)
                by (nonlinear_arith);
        }
        i = i + 1;
    }
    proof {
        assert(rgbs@ =~= target);
    }
    rgbs
}

/// Regroups a raw byte buffer, three bytes per pixel, into pixel triples.
pub open spec fn triples_of(raw: Seq<u8>) -> Seq<(u8, u8, u8)> {
    Seq::new((raw.len() / 3) as nat, |i: int| (raw[3 * i], raw[3 * i + 1], raw[3 * i + 2]))
}

/// Converts a raw RGB byte buffer into pixel triples.
pub fn to_triples(raw: &Vec<u8>) -> (r: Vec<(u8, u8, u8)>)
    requires
        raw@.len() % 3 == 0,
    ensures
        r@ == triples_of(raw@),
{
    let total: usize = raw.len();
    let n: usize = total / 3;
    let mut out: Vec<(u8, u8, u8)> = Vec::new();
    let mut i: usize = 0;
    while i < n
        invariant
            0 <= i <= n,
            total == raw@.len(),
            n == raw@.len() / 3,
            raw@.len() % 3 == 0,
            out@.len() == i,
            forall|k: int| 0 <= k < i ==> out@[k] == triples_of(raw@)[k],
        decreases n - i,
    {
        assert(3 * i + 2 < total);
        out.push((raw[3 * i], raw[3 * i + 1], raw[3 * i + 2]));
        i = i + 1;
    }
    proof {
        assert(out@ =~= triples_of(raw@));
    }
    out
}

} // verus!
