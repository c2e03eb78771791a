use image3d::depth::{focus_map, gradient_energy_map, DepthMethod};
use image3d::raster::GrayImage;

#[test]
fn method_names_select_methods() {
    assert_eq!(DepthMethod::parse("luminance"), DepthMethod::Luminance);
    assert_eq!(DepthMethod::parse("gradient"), DepthMethod::Gradient);
    assert_eq!(DepthMethod::parse("combined"), DepthMethod::Combined);
    assert_eq!(DepthMethod::parse("anything else"), DepthMethod::Combined);
    assert_eq!(DepthMethod::parse(""), DepthMethod::Combined);
    assert_eq!(DepthMethod::parse("Luminance"), DepthMethod::Combined);
}

#[test]
fn method_name_round_trip() {
    for m in [DepthMethod::Luminance, DepthMethod::Gradient, DepthMethod::Combined] {
        assert_eq!(DepthMethod::parse(m.name()), m);
    }
    assert_eq!(DepthMethod::Gradient.name(), "gradient");
}

#[test]
fn gradient_map_has_zero_border() {
    let img = GrayImage { width: 3, height: 3, pixels: vec![0, 0, 10, 0, 0, 10, 0, 0, 10] };
    let m = gradient_energy_map(&img);
    // gx = 40, gy = 0 at the centre.
    assert_eq!(m, vec![0, 0, 0, 0, 1600, 0, 0, 0, 0]);
}

#[test]
fn focus_map_is_absolute_laplacian() {
    let img = GrayImage { width: 4, height: 3, pixels: vec![8, 8, 8, 8, 8, 0, 8, 8, 8, 8, 8, 8] };
    let m = focus_map(&img);
    // (1,1): 0 - 32 -> 32; (2,1): 32 - 8 - 0 - 8 - 8 = 8.
    assert_eq!(m, vec![0, 0, 0, 0, 0, 32, 8, 0, 0, 0, 0, 0]);
}

#[test]
fn maps_of_thin_images_are_zero() {
    let img = GrayImage { width: 2, height: 3, pixels: vec![1, 200, 3, 4, 250, 6] };
    assert_eq!(gradient_energy_map(&img), vec![0; 6]);
    assert_eq!(focus_map(&img), vec![0; 6]);
}
