use morphing::color::Color;

#[test]
fn color_accessors() {
    let c = Color::new([10, 20, 30, 40]);
    assert_eq!(c.r(), 10);
    assert_eq!(c.g(), 20);
    assert_eq!(c.b(), 30);
    assert_eq!(c.a(), 40);
    assert_eq!(c.len(), 4);
    assert_eq!(c.to_array(), [10, 20, 30, 40]);
}

#[test]
fn set_rgb_keeps_alpha() {
    let mut c = Color::new([1, 2, 3, 200]);
    c.set_rgb(7, 8, 9);
    assert_eq!(c.to_array(), [7, 8, 9, 200]);
}
