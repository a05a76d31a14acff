use photomosaic::color::average_color;
use photomosaic::color::distance;
use photomosaic::color::isqrt64;

#[test]
fn isqrt_small_values() {
    assert_eq!(isqrt64(0), 0);
    assert_eq!(isqrt64(1), 1);
    assert_eq!(isqrt64(3), 1);
    assert_eq!(isqrt64(4), 2);
    assert_eq!(isqrt64(65024), 254);
    assert_eq!(isqrt64(65025), 255);
}

#[test]
fn average_of_uniform_block_is_the_color() {
    let pixels: Vec<(u8, u8, u8)> = vec![(17, 250, 3); 9];
    assert_eq!(average_color(&pixels), (17, 250, 3));
}

#[test]
fn average_is_root_mean_square_not_arithmetic_mean() {
    // Channels 0 and 255 over two pixels: mean of squares is 32512.5,
    // whose rounded square root is 180 (not the arithmetic mean 127).
    let pixels: Vec<(u8, u8, u8)> = vec![(0, 0, 0), (255, 255, 255)];
    assert_eq!(average_color(&pixels), (180, 180, 180));
}

#[test]
fn average_rounds_the_root_of_the_exact_mean() {
    // Squares 1 and 4: exact mean 2.5, root 1.58.., rounded to 2.
    let pixels: Vec<(u8, u8, u8)> = vec![(1, 0, 0), (2, 0, 0)];
    assert_eq!(average_color(&pixels), (2, 0, 0));
    // Squares 1, 1 and 9: exact mean 11/3, root 1.91.., rounded to 2 —
    // where flooring the mean before the root would give 1.
    let pixels: Vec<(u8, u8, u8)> = vec![(1, 0, 0), (1, 0, 0), (3, 0, 0)];
    assert_eq!(average_color(&pixels), (2, 0, 0));
}

#[test]
fn distance_of_equal_colors_is_zero() {
    assert_eq!(distance((5, 100, 200), (5, 100, 200)), 0);
}

#[test]
fn distance_uses_squared_channel_differences() {
    // |0-9| + |0-16| + |0-0| = 25, square root 5.
    assert_eq!(distance((0, 0, 0), (3, 4, 0)), 5);
}

#[test]
fn distance_truncates_the_root() {
    // |1-0|*3 = 3, square root truncates to 1.
    assert_eq!(distance((1, 1, 1), (0, 0, 0)), 1);
    // Full-range channels: 3 * 255^2 = 195075, root truncates to 441.
    assert_eq!(distance((255, 255, 255), (0, 0, 0)), 441);
}
