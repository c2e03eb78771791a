use image3d::raster::{channel, grayscale, GrayImage, RgbaImage};

fn rgba(width: u32, height: u32, pixels: Vec<[u8; 4]>) -> RgbaImage {
    RgbaImage { width, height, pixels }
}

#[test]
fn grayscale_weights_each_channel() {
    let img = rgba(
        4,
        1,
        vec![[255, 0, 0, 255], [0, 255, 0, 255], [0, 0, 255, 255], [255, 255, 255, 0]],
    );
    let gray = grayscale(&img);
    assert_eq!(gray.width, 4);
    assert_eq!(gray.height, 1);
    assert_eq!(gray.pixels, vec![54, 182, 18, 255]);
}

#[test]
fn grayscale_keeps_neutral_pixels() {
    let img = rgba(2, 2, vec![[77, 77, 77, 255], [0, 0, 0, 0], [200, 200, 200, 9], [1, 1, 1, 1]]);
    let gray = grayscale(&img);
    assert_eq!(gray.pixels, vec![77, 0, 200, 1]);
}

#[test]
fn grayscale_of_empty_image() {
    let gray = grayscale(&rgba(3, 0, vec![]));
    assert_eq!(gray.width, 3);
    assert_eq!(gray.height, 0);
    assert!(gray.pixels.is_empty());
    let gray = grayscale(&rgba(0, 1, vec![]));
    assert_eq!(gray.width, 0);
    assert!(gray.pixels.is_empty());
}

#[test]
fn channel_extracts_one_component() {
    let img = rgba(2, 1, vec![[1, 2, 3, 4], [5, 6, 7, 8]]);
    assert_eq!(channel(&img, 0), vec![1, 5]);
    assert_eq!(channel(&img, 1), vec![2, 6]);
    assert_eq!(channel(&img, 2), vec![3, 7]);
    assert_eq!(channel(&img, 3), vec![4, 8]);
}

#[test]
fn gray_image_get_reads_row_major() {
    let img = GrayImage { width: 3, height: 2, pixels: vec![1, 2, 3, 4, 5, 6] };
    assert_eq!(img.get(0, 0), 1);
    assert_eq!(img.get(2, 0), 3);
    assert_eq!(img.get(1, 1), 5);
}
