use image3d::analysis::{
    cooccurrence, direction_bin_of, edge_counts, laplacian_responses, noise_residuals,
    sample_colors, seed_indices,
};
use image3d::raster::{GrayImage, RgbaImage};

fn gray(width: u32, height: u32, pixels: Vec<u8>) -> GrayImage {
    GrayImage { width, height, pixels }
}

#[test]
fn vertical_step_points_right() {
    let img = gray(4, 3, vec![0, 0, 255, 255, 0, 0, 255, 255, 0, 0, 255, 255]);
    let e = edge_counts(&img);
    assert_eq!(e.edge_pixels, 2);
    assert_eq!(e.direction_histogram, vec![2, 0, 0, 0, 0, 0, 0, 0]);
    assert_eq!(e.max_energy, 1020 * 1020);
}

#[test]
fn reversed_step_points_left() {
    let img = gray(4, 3, vec![255, 255, 0, 0, 255, 255, 0, 0, 255, 255, 0, 0]);
    let e = edge_counts(&img);
    assert_eq!(e.edge_pixels, 2);
    assert_eq!(e.direction_histogram, vec![0, 0, 0, 0, 2, 0, 0, 0]);
}

#[test]
fn horizontal_step_points_down() {
    let img = gray(3, 4, vec![0, 0, 0, 0, 0, 0, 255, 255, 255, 255, 255, 255]);
    let e = edge_counts(&img);
    assert_eq!(e.edge_pixels, 2);
    assert_eq!(e.direction_histogram, vec![0, 0, 2, 0, 0, 0, 0, 0]);
}

#[test]
fn weak_gradient_is_not_an_edge() {
    // gx = 4 * 7 = 28, energy 784 <= 900.
    let img = gray(3, 3, vec![0, 0, 7, 0, 0, 7, 0, 0, 7]);
    let e = edge_counts(&img);
    assert_eq!(e.edge_pixels, 0);
    assert_eq!(e.max_energy, 784);
    assert_eq!(e.direction_histogram.iter().sum::<u32>(), 0);
}

#[test]
fn small_images_have_no_interior() {
    let e = edge_counts(&gray(2, 5, vec![9; 10]));
    assert_eq!(e.edge_pixels, 0);
    assert_eq!(e.max_energy, 0);
    assert!(laplacian_responses(&gray(5, 2, vec![1; 10])).is_empty());
    assert!(noise_residuals(&gray(0, 0, vec![])).is_empty());
}

#[test]
fn direction_sectors() {
    assert_eq!(direction_bin_of(10, 0), 0);
    assert_eq!(direction_bin_of(10, 3), 0);
    assert_eq!(direction_bin_of(10, -4), 0);
    assert_eq!(direction_bin_of(10, 5), 1);
    assert_eq!(direction_bin_of(10, 10), 1);
    assert_eq!(direction_bin_of(0, 5), 2);
    assert_eq!(direction_bin_of(-10, 10), 3);
    assert_eq!(direction_bin_of(-10, 4), 4);
    assert_eq!(direction_bin_of(-10, 0), 4);
    assert_eq!(direction_bin_of(-10, -10), 5);
    assert_eq!(direction_bin_of(3, -20), 6);
    assert_eq!(direction_bin_of(10, -10), 7);
}

#[test]
fn direction_sectors_match_rounded_angle() {
    for gx in -60i32..=60 {
        for gy in -60i32..=60 {
            if gx == 0 && gy == 0 {
                continue;
            }
            let angle = (gy as f64).atan2(gx as f64).to_degrees().rem_euclid(360.0);
            let bin = ((angle / 45.0).round() as usize) % 8;
            assert_eq!(direction_bin_of(gx, gy), bin, "gx={} gy={}", gx, gy);
        }
    }
}

#[test]
fn direction_histogram_adds_up_to_edges() {
    let pixels: Vec<u8> = (0..64u32).map(|i| ((i * 97 + i * i * 13) % 256) as u8).collect();
    let img = gray(8, 8, pixels);
    let e = edge_counts(&img);
    assert_eq!(e.direction_histogram.iter().map(|&c| c as u64).sum::<u64>(), e.edge_pixels);
}

#[test]
fn uniform_image_is_flat() {
    let img = gray(5, 4, vec![123; 20]);
    let e = edge_counts(&img);
    assert_eq!(e.edge_pixels, 0);
    assert_eq!(e.max_energy, 0);
    assert_eq!(laplacian_responses(&img), vec![0; 6]);
    assert_eq!(noise_residuals(&img), vec![0; 6]);
}

#[test]
fn cooccurrence_counts_horizontal_pairs() {
    let img = gray(3, 2, vec![0, 255, 4, 4, 3, 200]);
    let m = cooccurrence(&img);
    assert_eq!(m.len(), 4096);
    // Pairs: (0,255) -> cell 0*64+63, (255,4) -> 63*64+1, (4,3) -> 1*64+0, (3,200) -> 0*64+50.
    assert_eq!(m[63], 1);
    assert_eq!(m[63 * 64 + 1], 1);
    assert_eq!(m[64], 1);
    assert_eq!(m[50], 1);
    assert_eq!(m.iter().sum::<u64>(), 4);
}

#[test]
fn cooccurrence_total_is_number_of_pairs() {
    let pixels: Vec<u8> = (0..35u32).map(|i| (i * 29 % 256) as u8).collect();
    let m = cooccurrence(&gray(7, 5, pixels));
    assert_eq!(m.iter().sum::<u64>(), 6 * 5);
    assert_eq!(cooccurrence(&gray(1, 4, vec![1, 2, 3, 4])).iter().sum::<u64>(), 0);
}

#[test]
fn laplacian_and_noise_of_a_spike() {
    let img = gray(3, 3, vec![0, 0, 0, 0, 10, 0, 0, 0, 0]);
    assert_eq!(laplacian_responses(&img), vec![40]);
    assert_eq!(noise_residuals(&img), vec![80]);
    let dip = gray(3, 3, vec![8, 8, 8, 8, 0, 8, 8, 8, 8]);
    assert_eq!(laplacian_responses(&dip), vec![-32]);
    assert_eq!(noise_residuals(&dip), vec![64]);
}

#[test]
fn laplacian_responses_in_row_major_order() {
    let img = gray(4, 3, vec![0, 0, 0, 0, 0, 5, 1, 0, 0, 0, 0, 0]);
    // (1,1): 20 - 1 = 19; (2,1): 4 - 5 = -1.
    assert_eq!(laplacian_responses(&img), vec![19, -1]);
}

#[test]
fn sample_takes_every_sixteenth_pixel() {
    let pixels: Vec<[u8; 4]> = (0..33u32).map(|i| [i as u8, 1, 2, 3]).collect();
    let img = RgbaImage { width: 33, height: 1, pixels };
    assert_eq!(sample_colors(&img), vec![[0, 1, 2], [16, 1, 2], [32, 1, 2]]);
    let img16 = RgbaImage { width: 16, height: 1, pixels: vec![[9, 9, 9, 9]; 16] };
    assert_eq!(sample_colors(&img16).len(), 1);
    let empty = RgbaImage { width: 0, height: 0, pixels: vec![] };
    assert!(sample_colors(&empty).is_empty());
}

#[test]
fn seeds_are_evenly_spaced() {
    assert_eq!(seed_indices(10, 3), vec![0, 3, 6]);
    assert_eq!(seed_indices(2, 8), vec![0, 1, 1, 1, 1, 1, 1, 1]);
    assert_eq!(seed_indices(16, 8), vec![0, 2, 4, 6, 8, 10, 12, 14]);
    assert!(seed_indices(0, 8).is_empty());
}

#[test]
fn inverted_image_turns_sectors_half_round() {
    let pixels: Vec<u8> = (0..81u32).map(|i| ((i * 53 + i * i * 7) % 256) as u8).collect();
    let inverted: Vec<u8> = pixels.iter().map(|&p| 255 - p).collect();
    let a = edge_counts(&gray(9, 9, pixels.clone()));
    let b = edge_counts(&gray(9, 9, inverted.clone()));
    assert_eq!(a.edge_pixels, b.edge_pixels);
    assert_eq!(a.max_energy, b.max_energy);
    for s in 0..8 {
        assert_eq!(b.direction_histogram[(s + 4) % 8], a.direction_histogram[s]);
    }
    assert_eq!(
        noise_residuals(&gray(9, 9, pixels.clone())),
        noise_residuals(&gray(9, 9, inverted.clone()))
    );
    let la = laplacian_responses(&gray(9, 9, pixels));
    let lb = laplacian_responses(&gray(9, 9, inverted));
    assert!(la.iter().zip(lb.iter()).all(|(x, y)| *x == -*y));
}
