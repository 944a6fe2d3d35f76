use image_processing::mirror::Params;

#[test]
fn test_mirror_default_flips_nothing() {
    let p = Params::default();
    assert!(!p.flip_v);
    assert!(!p.flip_h);
    assert_eq!(p, Params { flip_v: false, flip_h: false });
}
