use image3d::raster::RgbaImage;
use image3d::stereo::{anaglyph, shift_rows, stereo_pair, AnaglyphMode};

const BLACK: [u8; 4] = [0, 0, 0, 255];

fn row(pixels: Vec<[u8; 4]>) -> RgbaImage {
    RgbaImage { width: pixels.len() as u32, height: 1, pixels }
}

#[test]
fn zero_shift_keeps_image() {
    let img = RgbaImage {
        width: 2,
        height: 2,
        pixels: vec![[1, 2, 3, 4], [5, 6, 7, 8], [9, 10, 11, 12], [13, 14, 15, 16]],
    };
    let out = shift_rows(&img, &vec![0; 4]);
    assert_eq!(out.width, 2);
    assert_eq!(out.height, 2);
    assert_eq!(out.pixels, img.pixels);
}

#[test]
fn shift_right_leaves_black_gap() {
    let a = [10, 0, 0, 255];
    let b = [20, 0, 0, 255];
    let c = [30, 0, 0, 255];
    let out = shift_rows(&row(vec![a, b, c]), &vec![1, 1, 1]);
    assert_eq!(out.pixels, vec![BLACK, a, b]);
}

#[test]
fn shift_left_and_out_of_range() {
    let a = [10, 0, 0, 255];
    let b = [20, 0, 0, 255];
    let c = [30, 0, 0, 255];
    let out = shift_rows(&row(vec![a, b, c]), &vec![-1, -1, 5]);
    assert_eq!(out.pixels, vec![b, BLACK, BLACK]);
}

#[test]
fn later_pixel_wins_collision() {
    let a = [10, 0, 0, 255];
    let b = [20, 0, 0, 255];
    let c = [30, 0, 0, 255];
    let out = shift_rows(&row(vec![a, b, c]), &vec![1, 0, 0]);
    assert_eq!(out.pixels, vec![BLACK, b, c]);
}

#[test]
fn shifts_apply_per_row() {
    let img = RgbaImage {
        width: 2,
        height: 2,
        pixels: vec![[1, 1, 1, 1], [2, 2, 2, 2], [3, 3, 3, 3], [4, 4, 4, 4]],
    };
    let out = shift_rows(&img, &vec![0, 0, 1, -9]);
    assert_eq!(out.pixels, vec![[1, 1, 1, 1], [2, 2, 2, 2], BLACK, [3, 3, 3, 3]]);
}

#[test]
fn stereo_pair_layout() {
    let left = RgbaImage { width: 1, height: 2, pixels: vec![[255, 0, 0, 255], [1, 2, 3, 4]] };
    let right = RgbaImage { width: 1, height: 2, pixels: vec![[0, 0, 255, 255], [5, 6, 7, 8]] };
    let out = stereo_pair(&left, &right);
    assert_eq!(out.width, 6);
    assert_eq!(out.height, 2);
    let d = [50, 50, 50];
    assert_eq!(
        out.pixels,
        vec![[255, 0, 0], d, d, d, d, [0, 0, 255], [1, 2, 3], d, d, d, d, [5, 6, 7]]
    );
}

#[test]
fn anaglyph_modes() {
    let left = row(vec![[10, 20, 30, 255]]);
    let right = row(vec![[40, 50, 60, 255]]);
    assert_eq!(anaglyph(&left, &right, AnaglyphMode::RedCyan).pixels, vec![[10, 50, 60]]);
    assert_eq!(anaglyph(&left, &right, AnaglyphMode::GreenMagenta).pixels, vec![[50, 20, 50]]);
    assert_eq!(anaglyph(&left, &right, AnaglyphMode::AmberBlue).pixels, vec![[15, 15, 60]]);
}

#[test]
fn anaglyph_means_do_not_overflow() {
    let left = row(vec![[255, 255, 0, 0]]);
    let right = row(vec![[255, 0, 255, 0]]);
    assert_eq!(anaglyph(&left, &right, AnaglyphMode::GreenMagenta).pixels, vec![[255, 255, 255]]);
    assert_eq!(anaglyph(&left, &right, AnaglyphMode::AmberBlue).pixels, vec![[255, 255, 255]]);
    let odd = row(vec![[1, 2, 4, 0]]);
    assert_eq!(anaglyph(&odd, &odd, AnaglyphMode::GreenMagenta).pixels, vec![[2, 2, 2]]);
}

#[test]
fn anaglyph_mode_names() {
    assert_eq!(AnaglyphMode::parse("red-cyan"), AnaglyphMode::RedCyan);
    assert_eq!(AnaglyphMode::parse("green-magenta"), AnaglyphMode::GreenMagenta);
    assert_eq!(AnaglyphMode::parse("amber-blue"), AnaglyphMode::AmberBlue);
    assert_eq!(AnaglyphMode::parse("blue-amber"), AnaglyphMode::RedCyan);
}

#[test]
fn zero_disparity_red_cyan_gives_back_colours() {
    let img = RgbaImage {
        width: 3,
        height: 1,
        pixels: vec![[1, 2, 3, 4], [50, 60, 70, 80], [200, 100, 0, 255]],
    };
    let left = shift_rows(&img, &vec![0; 3]);
    let right = shift_rows(&img, &vec![0; 3]);
    let out = anaglyph(&left, &right, AnaglyphMode::RedCyan);
    assert_eq!(out.pixels, vec![[1, 2, 3], [50, 60, 70], [200, 100, 0]]);
}

#[test]
fn uniform_left_shift_moves_whole_row() {
    let a = [1, 0, 0, 255];
    let b = [2, 0, 0, 255];
    let c = [3, 0, 0, 255];
    let d = [4, 0, 0, 255];
    let out = shift_rows(&row(vec![a, b, c, d]), &vec![-2; 4]);
    assert_eq!(out.pixels, vec![c, d, BLACK, BLACK]);
}
