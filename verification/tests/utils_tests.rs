use image3d::utils::clamp;

#[test]
fn clamp_integers() {
    assert_eq!(clamp(5, 0, 3), 3);
    assert_eq!(clamp(-1, 0, 3), 0);
    assert_eq!(clamp(2, 0, 3), 2);
    assert_eq!(clamp(0u8, 0, 0), 0);
}

#[test]
fn clamp_floats() {
    assert_eq!(clamp(1.5f32, 0.0, 1.0), 1.0);
    assert_eq!(clamp(-0.25f64, 0.0, 1.0), 0.0);
    assert_eq!(clamp(0.5f64, 0.0, 1.0), 0.5);
}

#[test]
fn clamp_strings() {
    assert_eq!(clamp("m", "a", "k"), "k");
    assert_eq!(clamp("b", "a", "k"), "b");
}

#[test]
fn clamp_twice_is_clamp_once() {
    for v in -5i64..15 {
        let once = clamp(v, 0, 9);
        assert_eq!(clamp(once, 0, 9), once);
    }
}
