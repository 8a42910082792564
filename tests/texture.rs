use raytracer::texture::Tex;

fn two_by_two() -> Vec<u8> {
    vec![
        10, 11, 12, 255, 20, 21, 22, 255, //
        30, 31, 32, 255, 40, 41, 42, 255,
    ]
}

#[test]
fn texel_reads_row_major_rgb() {
    let pix = two_by_two();
    let t = Tex { pix: &pix, w: 2, h: 2 };
    assert_eq!(t.texel(0, 0), Some([10, 11, 12]));
    assert_eq!(t.texel(1, 0), Some([20, 21, 22]));
    assert_eq!(t.texel(0, 1), Some([30, 31, 32]));
    assert_eq!(t.texel(1, 1), Some([40, 41, 42]));
}

#[test]
fn texel_outside_image_falls_back() {
    let pix = two_by_two();
    let t = Tex { pix: &pix, w: 2, h: 2 };
    assert_eq!(t.texel(2, 0), None);
    assert_eq!(t.texel(0, 2), None);
    assert_eq!(t.texel(u32::MAX, u32::MAX), None);
}

#[test]
fn texel_of_mismatched_buffer_falls_back() {
    let pix = two_by_two();
    let short = Tex { pix: &pix[..12], w: 2, h: 2 };
    assert_eq!(short.texel(0, 0), None);
    let long = Tex { pix: &pix, w: 1, h: 2 };
    assert_eq!(long.texel(0, 0), None);
    let empty = Tex { pix: &[], w: 0, h: 0 };
    assert_eq!(empty.texel(0, 0), None);
    let huge = Tex { pix: &pix, w: u32::MAX, h: u32::MAX };
    assert_eq!(huge.texel(0, 0), None);
}
