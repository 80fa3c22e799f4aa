use ascii_art::catalog::FontSortByLightness;
use ascii_art::font::Font;
use ascii_art::image::{calc_image_size, calc_mean_hsl, generate_ascii_image_vec, RenderError};

fn catalog() -> FontSortByLightness {
    let mut font = Font::new();
    font.add_glyph('#', &vec![31u64; 12]).unwrap();
    font.add_glyph(' ', &vec![0u64; 12]).unwrap();
    font.add_glyph('|', &vec![1u64; 12]).unwrap();
    FontSortByLightness::from_font(&font)
}

fn uniform(w: usize, h: usize, rgb: [u8; 3]) -> Vec<u8> {
    let mut v = Vec::new();
    for _ in 0..w * h {
        v.extend_from_slice(&[rgb[0], rgb[1], rgb[2], 9]);
    }
    v
}

#[test]
fn size_for_full_hd_capped_at_100() {
    let (w, h) = calc_image_size(1920, 1080, 100);
    assert_eq!((w, h), (100, 48));
    assert!(w <= 100 && h <= 100 && w % 5 == 0 && h % 12 == 0);
}

#[test]
fn size_portrait_and_no_upscale() {
    assert_eq!(calc_image_size(1080, 1920, 100), (55, 96));
    assert_eq!(calc_image_size(50, 24, 100), (50, 24));
}

#[test]
fn size_too_small() {
    assert_eq!(calc_image_size(4, 3, 100), (0, 0));
    assert_eq!(calc_image_size(1000, 10, 100), (100, 0));
    assert_eq!(calc_image_size(0, 0, 100), (0, 0));
    let data = uniform(100, 0, [0, 0, 0]);
    assert_eq!(
        generate_ascii_image_vec(&catalog(), &data, 100, 0),
        Err(RenderError::OutputTooSmall)
    );
}

#[test]
fn render_errors() {
    let cat = catalog();
    assert_eq!(
        generate_ascii_image_vec(&cat, &uniform(6, 12, [0, 0, 0]), 6, 12),
        Err(RenderError::Misaligned)
    );
    assert_eq!(
        generate_ascii_image_vec(&cat, &uniform(5, 11, [0, 0, 0]), 5, 12),
        Err(RenderError::BadBufferLength)
    );
    let empty = FontSortByLightness::from_font(&Font::new());
    assert_eq!(
        generate_ascii_image_vec(&empty, &uniform(5, 12, [0, 0, 0]), 5, 12),
        Err(RenderError::EmptyCatalog)
    );
}

#[test]
fn uniform_red_frame() {
    let out = generate_ascii_image_vec(&catalog(), &uniform(10, 24, [255, 0, 0]), 10, 24).unwrap();
    assert_eq!(out.len(), 10 * 24 * 4);
    for px in out.chunks(4) {
        assert_eq!(px, &[255, 0, 0, 255]);
    }
}

#[test]
fn uniform_frame_same_glyph_and_ink() {
    // lightness 0.5: '|' (lightness 0.2) is nearer than '#' (1.0)
    let out = generate_ascii_image_vec(&catalog(), &uniform(10, 24, [0, 127, 127]), 10, 24).unwrap();
    for (q, px) in out.chunks(4).enumerate() {
        let x = q % 10;
        let on = x % 5 == 0;
        let expect: [u8; 4] = if on { [0, 255, 255, 255] } else { [0, 0, 0, 255] };
        assert_eq!(px, &expect, "pixel {}", q);
    }
}

#[test]
fn black_frame_renders_black() {
    let out = generate_ascii_image_vec(&catalog(), &uniform(5, 12, [0, 0, 0]), 5, 12).unwrap();
    for px in out.chunks(4) {
        assert_eq!(px, &[0, 0, 0, 255]);
    }
}

#[test]
fn rendering_twice_gives_same_bytes() {
    let mut data = Vec::new();
    for i in 0..(10 * 12) {
        let v = (i * 7 % 256) as u8;
        data.extend_from_slice(&[v, 255 - v, v / 2, 255]);
    }
    let cat = catalog();
    let a = generate_ascii_image_vec(&cat, &data, 10, 12).unwrap();
    let b = generate_ascii_image_vec(&cat, &data, 10, 12).unwrap();
    assert_eq!(a, b);
}

#[test]
fn mean_of_block() {
    // left block white, right block black
    let mut data = Vec::new();
    for _y in 0..12 {
        for x in 0..10 {
            let v = if x < 5 { 255 } else { 0 };
            data.extend_from_slice(&[v, v, v, 255]);
        }
    }
    let m = calc_mean_hsl(&data, 0, 0, 10, 12);
    assert_eq!((m.h, m.s, m.l), (0, 0, 10000));
    let m = calc_mean_hsl(&data, 5, 0, 10, 12);
    assert_eq!((m.h, m.s, m.l), (0, 0, 0));
}
