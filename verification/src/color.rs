//! Average colors and the color distance metric.
//!
//! A block's average color is the per-channel root-mean-square of its pixel
//! values, rounded to the nearest integer: `round(sqrt(mean(c^2)))`. The same definition
//! summarizes a library tile and a source-image block, so the two sides of a
//! match are commensurable. The distance between two colors is
//! `isqrt(|r^2 - R^2| + |g^2 - G^2| + |b^2 - B^2|)`, deliberately not the
//! Euclidean RGB distance.
use vstd::prelude::*;

verus! {

/// The square of an integer.
pub open spec fn sq(x: int) -> int {
    x * x
}

/// The integer square root: the greatest `r` with `r * r <= x`.
pub open spec fn isqrt_spec(x: int) -> int
    decreases x,
{
    if x < 1 {
        0
    } else {
        let r = isqrt_spec(x - 1);
        if sq(r + 1) <= x {
            r + 1
        } else {
            r
        }
    }
}

pub proof fn lemma_isqrt_bounds(x: int)
    requires
        x >= 0,
    ensures
        isqrt_spec(x) >= 0,
        sq(isqrt_spec(x)) <= x,
        x < sq(isqrt_spec(x) + 1),
    decreases x,
{
    if x == 0 {
    } else {
        lemma_isqrt_bounds(x - 1);
        let r = isqrt_spec(x - 1);
        if sq(r + 1) <= x {
            assert(x - 1 < sq(r + 1));
            assert(x == sq(r + 1));
            assert(sq(r + 1) < sq(r + 2)) by (nonlinear_arith)
                requires r >= 0;
        }
    }
}

/// The bounds `r * r <= x < (r + 1) * (r + 1)` pin the integer square root
/// down uniquely.
pub proof fn lemma_isqrt_unique(x: int, r: int)
    requires
        x >= 0,
        r >= 0,
        sq(r) <= x,
        x < sq(r + 1),
    ensures
        r == isqrt_spec(x),
{
    lemma_isqrt_bounds(x);
    let s = isqrt_spec(x);
    if r < s {
        assert(sq(r + 1) <= sq(s)) by (nonlinear_arith)
            requires 0 <= r + 1 <= s;
    }
    if s < r {
        assert(sq(s + 1) <= sq(r)) by (nonlinear_arith)
            requires 0 <= s + 1 <= r;
    }
}

/// Integer square root, by binary search on the root.
pub fn isqrt64(x: u64) -> (r: u64)
    ensures
        r == isqrt_spec(x as int),
{
    let mut lo: u64 = 0;
    let mut hi: u64 = 0x1_0000_0000;
    proof {
        assert(sq(0x1_0000_0000) == 0x1_0000_0000_0000_0000) by (nonlinear_arith);
    }
    while lo + 1 < hi
        invariant
            0 <= lo < hi <= 0x1_0000_0000,
            sq(lo as int) <= x as int,
            (x as int) < sq(hi as int),
        decreases hi - lo,
    {
        let mid: u64 = lo + (hi - lo) / 2;
        assert(lo < mid < hi);
        proof {
            assert((mid as int) * (mid as int) < 0x1_0000_0000_0000_0000) by (nonlinear_arith)
                requires 0 <= mid < 0x1_0000_0000;
        }
        if mid * mid <= x {
            lo = mid;
        } else {
            hi = mid;
        }
    }
    proof {
        lemma_isqrt_unique(x as int, lo as int);
    }
    lo
}

/// Reads one channel of a pixel: 0 is red, 1 is green, anything else blue.
pub open spec fn channel(p: (u8, u8, u8), ch: int) -> int {
    if ch == 0 {
        p.0 as int
    } else if ch == 1 {
        p.1 as int
    } else {
        p.2 as int
    }
}

/// The sum of the squared values of one channel over a pixel sequence.
pub open spec fn sum_sq_ch(s: Seq<(u8, u8, u8)>, ch: int) -> int
    decreases s.len(),
{
    if s.len() == 0 {
        0
    } else {
        sum_sq_ch(s.drop_last(), ch) + sq(channel(s.last(), ch))
    }
}

pub proof fn lemma_sum_sq_bounds(s: Seq<(u8, u8, u8)>, ch: int)
    ensures
        0 <= sum_sq_ch(s, ch) <= s.len() * 65025,
    decreases s.len(),
{
    if s.len() == 0 {
    } else {
        lemma_sum_sq_bounds(s.drop_last(), ch);
        assert(sq(channel(s.last(), ch)) <= 65025) by (nonlinear_arith)
            requires 0 <= channel(s.last(), ch) <= 255;
        assert((s.len() - 1) * 65025 + 65025 == s.len() * 65025) by (nonlinear_arith);
    }
}

/// The nearest integer to the square root of the exact mean `sum / n`:
/// `round(sqrt(sum / n))`, halves rounded up. In integers: the square root
/// of `4 * sum / n` is `2 * sqrt(sum / n)`, whose truncation brackets the
/// real root tightly enough that adding one and halving rounds correctly.
pub open spec fn rounded_mean_root(sum: int, n: int) -> int
    recommends
        n > 0,
{
    (isqrt_spec((4 * sum) / n) + 1) / 2
}

/// `rounded_mean_root` really is the rounded root of the exact mean: it is
/// zero exactly when `sqrt(sum / n) < 1/2`, and otherwise it is the `r`
/// with `r - 1/2 <= sqrt(sum / n) < r + 1/2`, both stated with the squares
/// cleared of fractions.
pub proof fn lemma_rounded_mean_root_brackets(sum: int, n: int)
    requires
        n >= 1,
        sum >= 0,
    ensures
        rounded_mean_root(sum, n) == 0 <==> 4 * sum < n,
        4 * sum >= n ==> {
            let r = rounded_mean_root(sum, n);
            r >= 1 && n * sq(2 * r - 1) <= 4 * sum && 4 * sum < n * sq(2 * r + 1)
        },
{
    let q = (4 * sum) / n;
    let k = isqrt_spec(q);
    let r = rounded_mean_root(sum, n);
    assert(q >= 0) by (nonlinear_arith)
        requires n >= 1, sum >= 0, q == (4 * sum) / n;
    lemma_isqrt_bounds(q);
    if 4 * sum < n {
        assert(q == 0) by (nonlinear_arith)
            requires n >= 1, 0 <= 4 * sum < n, q == (4 * sum) / n;
        assert(k == 0);
        assert(r == 0);
    } else {
        assert(q >= 1) by (nonlinear_arith)
            requires n >= 1, 4 * sum >= n, q == (4 * sum) / n;
        if k == 0 {
            assert(q < sq(1));
        }
        assert(k >= 1);
        assert(r == (k + 1) / 2 && 2 * r - 1 <= k && k <= 2 * r && k + 1 <= 2 * r + 1);
        assert(r >= 1);
        assert(n * sq(2 * r - 1) <= 4 * sum) by (nonlinear_arith)
            requires
                n >= 1,
                0 <= 2 * r - 1 <= k,
                sq(k) <= q,
                q == (4 * sum) / n,
                4 * sum >= 0,
        ;
        assert(4 * sum < n * sq(2 * r + 1)) by (nonlinear_arith)
            requires
                n >= 1,
                0 <= k,
                k + 1 <= 2 * r + 1,
                q < sq(k + 1),
                q == (4 * sum) / n,
                4 * sum >= 0,
        ;
    }
}

/// The average color of a pixel sequence: per channel, the square root of
/// the exact mean of the squared values, rounded to the nearest integer.
pub open spec fn average_of(s: Seq<(u8, u8, u8)>) -> (u8, u8, u8)
    recommends
        s.len() > 0,
{
    (
        rounded_mean_root(sum_sq_ch(s, 0), s.len() as int) as u8,
        rounded_mean_root(sum_sq_ch(s, 1), s.len() as int) as u8,
        rounded_mean_root(sum_sq_ch(s, 2), s.len() as int) as u8,
    )
}

proof fn lemma_mean_sq_range(s: Seq<(u8, u8, u8)>, ch: int)
    requires
        s.len() > 0,
    ensures
        0 <= (4 * sum_sq_ch(s, ch)) / s.len() as int <= 260100,
        isqrt_spec((4 * sum_sq_ch(s, ch)) / s.len() as int) <= 510,
        0 <= rounded_mean_root(sum_sq_ch(s, ch), s.len() as int) <= 255,
{
    lemma_sum_sq_bounds(s, ch);
    let n = s.len() as int;
    let q = (4 * sum_sq_ch(s, ch)) / n;
    assert(0 <= q <= 260100) by (nonlinear_arith)
        requires n > 0, 0 <= sum_sq_ch(s, ch) <= n * 65025, q == (4 * sum_sq_ch(s, ch)) / n;
    lemma_isqrt_bounds(q);
    if isqrt_spec(q) > 510 {
        assert(sq(511) <= sq(isqrt_spec(q))) by (nonlinear_arith)
            requires 511 <= isqrt_spec(q);
        assert(sq(511) > 260100) by (nonlinear_arith);
    }
}

/// Computes the average color of a non-empty pixel buffer.
pub fn average_color(pixels: &Vec<(u8, u8, u8)>) -> (r: (u8, u8, u8))
    requires
        pixels@.len() > 0,
    ensures
        r == average_of(pixels@),
{
    let n: usize = pixels.len();
    let mut sum_r: u128 = 0;
    let mut sum_g: u128 = 0;
    let mut sum_b: u128 = 0;
    let mut i: usize = 0;
    while i < n
        invariant
            0 <= i <= n,
            n == pixels@.len(),
            sum_r == sum_sq_ch(pixels@.take(i as int), 0),
            sum_g == sum_sq_ch(pixels@.take(i as int), 1),
            sum_b == sum_sq_ch(pixels@.take(i as int), 2),
        decreases n - i,
    {
        let p = pixels[i];
        proof {
            let pre = pixels@.take(i as int);
            let post = pixels@.take(i + 1);
            assert(post.drop_last() =~= pre);
            assert(post.last() == pixels@[i as int]);
            lemma_sum_sq_bounds(post, 0);
            lemma_sum_sq_bounds(post, 1);
            lemma_sum_sq_bounds(post, 2);
            assert(post.len() * 65025 < u128::MAX) by (nonlinear_arith)
                requires post.len() <= usize::MAX;
        }
        sum_r = sum_r + (p.0 as u128) * (p.0 as u128);
        sum_g = sum_g + (p.1 as u128) * (p.1 as u128);
        sum_b = sum_b + (p.2 as u128) * (p.2 as u128);
        i = i + 1;
    }
    proof {
        assert(pixels@.take(n as int) =~= pixels@);
        lemma_mean_sq_range(pixels@, 0);
        lemma_mean_sq_range(pixels@, 1);
        lemma_mean_sq_range(pixels@, 2);
        lemma_sum_sq_bounds(pixels@, 0);
        lemma_sum_sq_bounds(pixels@, 1);
        lemma_sum_sq_bounds(pixels@, 2);
        assert(4 * (n as int * 65025) < u128::MAX) by (nonlinear_arith)
            requires n <= usize::MAX;
    }
    let qr: u128 = (4 * sum_r) / (n as u128);
    let qg: u128 = (4 * sum_g) / (n as u128);
    let qb: u128 = (4 * sum_b) / (n as u128);
    let vr: u64 = (isqrt64(qr as u64) + 1) / 2;
    let vg: u64 = (isqrt64(qg as u64) + 1) / 2;
    let vb: u64 = (isqrt64(qb as u64) + 1) / 2;
    (vr as u8, vg as u8, vb as u8)
}

/// The root-mean-square of a uniformly colored block is that color itself.
pub proof fn lemma_uniform_average(s: Seq<(u8, u8, u8)>, c: (u8, u8, u8))
    requires
        s.len() > 0,
        forall|i: int| 0 <= i < s.len() ==> s[i] == c,
    ensures
        average_of(s) == c,
{
    lemma_uniform_sum(s, c, 0);
    lemma_uniform_sum(s, c, 1);
    lemma_uniform_sum(s, c, 2);
    let n = s.len() as int;
    assert forall|ch: int| 0 <= ch < 3 implies rounded_mean_root(sum_sq_ch(s, ch), n) == channel(
        c,
        ch,
    ) by {
        let v = channel(c, ch);
        assert((4 * (n * sq(v))) / n == 4 * sq(v)) by (nonlinear_arith)
            requires n > 0;
        assert(4 * sq(v) >= 0 && sq(2 * v) == 4 * sq(v) && 4 * sq(v) < sq(2 * v + 1))
            by (nonlinear_arith)
            requires 0 <= v <= 255;
        lemma_isqrt_unique(4 * sq(v), 2 * v);
        assert((2 * v + 1) / 2 == v);
    }
    assert(channel(c, 0) == c.0 as int && channel(c, 1) == c.1 as int && channel(c, 2)
        == c.2 as int);
}

proof fn lemma_uniform_sum(s: Seq<(u8, u8, u8)>, c: (u8, u8, u8), ch: int)
    requires
        forall|i: int| 0 <= i < s.len() ==> s[i] == c,
    ensures
        sum_sq_ch(s, ch) == s.len() * sq(channel(c, ch)),
    decreases s.len(),
{
    if s.len() == 0 {
    } else {
        lemma_uniform_sum(s.drop_last(), c, ch);
        assert((s.len() - 1) * sq(channel(c, ch)) + sq(channel(c, ch)) == s.len() * sq(
            channel(c, ch),
        )) by (nonlinear_arith);
    }
}

/// The absolute difference of two integers.
pub open spec fn abs_diff(a: int, b: int) -> int {
    if a >= b {
        a - b
    } else {
        b - a
    }
}

/// The matching distance between two colors: the truncated square root of
/// the summed absolute differences of the squared channels.
pub open spec fn dist_spec(a: (u8, u8, u8), b: (u8, u8, u8)) -> int {
    isqrt_spec(
        abs_diff(sq(a.0 as int), sq(b.0 as int)) + abs_diff(sq(a.1 as int), sq(b.1 as int))
            + abs_diff(sq(a.2 as int), sq(b.2 as int)),
    )
}

fn sq_u8(v: u8) -> (r: u32)
    ensures
        r == sq(v as int),
{
    proof {
        assert((v as int) * (v as int) <= 65025) by (nonlinear_arith)
            requires 0 <= v <= 255;
    }
    (v as u32) * (v as u32)
}

fn absdiff_u32(a: u32, b: u32) -> (r: u32)
    ensures
        r == abs_diff(a as int, b as int),
{
    if a >= b {
        a - b
    } else {
        b - a
    }
}

/// Computes the matching distance between two colors.
pub fn distance(a: (u8, u8, u8), b: (u8, u8, u8)) -> (d: u32)
    ensures
        d == dist_spec(a, b),
{
    proof {
        assert(sq(a.0 as int) <= 65025 && sq(b.0 as int) <= 65025 && sq(a.1 as int) <= 65025 && sq(
            b.1 as int,
        ) <= 65025 && sq(a.2 as int) <= 65025 && sq(b.2 as int) <= 65025) by (nonlinear_arith)
            requires
                a.0 <= 255 && b.0 <= 255 && a.1 <= 255 && b.1 <= 255 && a.2 <= 255 && b.2 <= 255;
    }
    let s: u32 = absdiff_u32(sq_u8(a.0), sq_u8(b.0)) + absdiff_u32(sq_u8(a.1), sq_u8(b.1))
        + absdiff_u32(sq_u8(a.2), sq_u8(b.2));
    let d: u64 = isqrt64(s as u64);
    proof {
        lemma_isqrt_bounds(s as int);
        if isqrt_spec(s as int) > 441 {
            assert(sq(442) <= sq(isqrt_spec(s as int))) by (nonlinear_arith)
                requires 442 <= isqrt_spec(s as int);
            assert(sq(442) > 195075) by (nonlinear_arith);
        }
    }
    d as u32
}

/// A distance is never negative.
pub proof fn lemma_dist_nonneg(a: (u8, u8, u8), b: (u8, u8, u8))
    ensures
        dist_spec(a, b) >= 0,
{
    let s = abs_diff(sq(a.0 as int), sq(b.0 as int)) + abs_diff(sq(a.1 as int), sq(b.1 as int))
        + abs_diff(sq(a.2 as int), sq(b.2 as int));
    lemma_isqrt_bounds(s);
}

/// The distance of a color to itself is zero, and zero distance forces
/// equality: the metric separates distinct colors.
pub proof fn lemma_dist_zero(a: (u8, u8, u8), b: (u8, u8, u8))
    ensures
        dist_spec(a, b) == 0 <==> a == b,
{
    if a == b {
        assert(isqrt_spec(0) == 0);
    }
    if dist_spec(a, b) == 0 {
        let s = abs_diff(sq(a.0 as int), sq(b.0 as int)) + abs_diff(sq(a.1 as int), sq(b.1 as int))
            + abs_diff(sq(a.2 as int), sq(b.2 as int));
        lemma_isqrt_bounds(s);
        assert(s < sq(1));
        assert(s == 0);
        lemma_sq_injective(a.0 as int, b.0 as int);
        lemma_sq_injective(a.1 as int, b.1 as int);
        lemma_sq_injective(a.2 as int, b.2 as int);
        assert((a.0, a.1, a.2) == (b.0, b.1, b.2));
        assert(a =~= b);
    }
}

proof fn lemma_sq_injective(x: int, y: int)
    requires
        x >= 0,
        y >= 0,
        sq(x) == sq(y),
    ensures
        x == y,
{
    if x < y {
        assert(sq(x) < sq(y)) by (nonlinear_arith)
            requires 0 <= x < y;
    }
    if y < x {
        assert(sq(y) < sq(x)) by (nonlinear_arith)
            requires 0 <= y < x;
    }
}

} // verus!
