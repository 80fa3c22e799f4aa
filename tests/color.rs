use ascii_art::color::{Hsl, Rgb, SCALE};

fn rgb_to_hsl(r: u8, g: u8, b: u8) -> (u64, u64, u64) {
    let hsl = Hsl::from_rgb(&Rgb::new(r, g, b));
    (hsl.h / SCALE, hsl.s * 100 / SCALE, hsl.l * 100 / SCALE)
}

fn hsl_to_rgb(h_deg: u64, s: u64, l: u64) -> (u8, u8, u8) {
    let rgb = Rgb::from_hsl(&Hsl::new(h_deg * SCALE, s, l));
    (rgb.r, rgb.g, rgb.b)
}

#[test]
fn test_rgb_to_hsl() {
    assert_eq!(rgb_to_hsl(0, 0, 0), (0, 0, 0));
    assert_eq!(rgb_to_hsl(255, 255, 255), (0, 0, 100));
    assert_eq!(rgb_to_hsl(255, 0, 0), (0, 100, 100));
    assert_eq!(rgb_to_hsl(0, 255, 0), (120, 100, 100));
    assert_eq!(rgb_to_hsl(0, 0, 255), (240, 100, 100));
    assert_eq!(rgb_to_hsl(127, 127, 255), (240, 50, 100));
    assert_eq!(rgb_to_hsl(255, 136, 0), (32, 100, 100));
    assert_eq!(rgb_to_hsl(0, 255, 34), (128, 100, 100));
    assert_eq!(rgb_to_hsl(68, 0, 255), (256, 100, 100));
}

#[test]
fn test_hsl_to_rgb() {
    assert_eq!(hsl_to_rgb(0, 0, 0), (0, 0, 0));
    assert_eq!(hsl_to_rgb(0, 0, SCALE), (255, 255, 255));
    assert_eq!(hsl_to_rgb(0, SCALE, SCALE), (255, 0, 0));
    assert_eq!(hsl_to_rgb(120, SCALE, SCALE), (0, 255, 0));
    assert_eq!(hsl_to_rgb(240, SCALE, SCALE), (0, 0, 255));
    assert_eq!(hsl_to_rgb(240, SCALE / 2, SCALE), (127, 127, 255));
    assert_eq!(hsl_to_rgb(32, SCALE, SCALE), (255, 136, 0));
    assert_eq!(hsl_to_rgb(128, SCALE, SCALE), (0, 255, 34));
    assert_eq!(hsl_to_rgb(256, SCALE, SCALE), (68, 0, 255));
}

#[test]
fn hsl_exact_fixed_point_values() {
    let c = Hsl::from_rgb(&Rgb::new(127, 127, 255));
    assert_eq!((c.h, c.s, c.l), (2_400_000, 5019, 10000));
    let c = Hsl::from_rgb(&Rgb::new(255, 0, 128));
    // 360 - 60 * 128 / 255 degrees
    assert_eq!(c.h, 3_298_823);
}

#[test]
fn hsl_new_clamps() {
    let c = Hsl::new(9_999_999, SCALE + 5, SCALE + 1);
    assert_eq!((c.h, c.s, c.l), (3_599_999, SCALE, SCALE));
}

#[test]
fn sector_boundaries() {
    assert_eq!(hsl_to_rgb(60, SCALE, SCALE), (255, 255, 0));
    assert_eq!(hsl_to_rgb(180, SCALE, SCALE), (0, 255, 255));
    assert_eq!(hsl_to_rgb(300, SCALE, SCALE), (255, 0, 255));
    let rgb = Rgb::from_hsl(&Hsl::new(1_799_999, SCALE, SCALE));
    assert_eq!((rgb.r, rgb.g), (0, 255));
}

#[test]
fn round_trip_within_one() {
    let samples: [(u8, u8, u8); 10] = [
        (0, 0, 0),
        (255, 255, 255),
        (10, 200, 30),
        (200, 10, 30),
        (30, 10, 200),
        (123, 45, 67),
        (1, 2, 3),
        (250, 250, 5),
        (5, 250, 250),
        (77, 77, 77),
    ];
    for (r, g, b) in samples {
        let back = Rgb::from_hsl(&Hsl::from_rgb(&Rgb::new(r, g, b)));
        for (x, y) in [(r, back.r), (g, back.g), (b, back.b)] {
            assert!((x as i32 - y as i32).abs() <= 1, "{:?} -> {:?}", (r, g, b), back);
        }
    }
}
