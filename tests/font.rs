use ascii_art::catalog::FontSortByLightness;
use ascii_art::font::{glyph_from_rows, Font, FontError, FONT_HEIGHT, GLYPH_CELLS};

const ZERO_GLYPH: &str = r#"{"0": [0, 0, 14, 17, 25, 21, 19, 17, 14, 0, 0, 0], "é": [1, 2]}"#;

#[test]
fn test_load_font() {
    let font = Font::load(ZERO_GLYPH).unwrap();
    assert!(font.contains_key(&'0'));
}

#[test]
fn load_skips_non_ascii_keys() {
    let font = Font::load(ZERO_GLYPH).unwrap();
    assert!(!font.contains_key(&'é'));
    assert_eq!(font.glyphs.len(), 1);
}

#[test]
fn load_errors() {
    assert_eq!(Font::load("not json").unwrap_err(), FontError::InvalidJson);
    assert_eq!(Font::load("[1, 2]").unwrap_err(), FontError::NotAnObject);
    assert_eq!(Font::load(r#"{"a": 3}"#).unwrap_err(), FontError::NotAnArray);
    assert_eq!(Font::load(r#"{"a": [1, -2]}"#).unwrap_err(), FontError::NotAnInteger);
    assert_eq!(Font::load(r#"{"a": [1, 2]}"#).unwrap_err(), FontError::WrongRowCount);
    assert_eq!(Font::load(r#"{"": []}"#).unwrap_err(), FontError::EmptyKey);
}

#[test]
fn rows_become_cells() {
    let mut rows = vec![0u64; FONT_HEIGHT];
    rows[0] = 0b10110; // bits 1, 2, 4
    rows[11] = 0xFF; // only the low five bits count
    let cells = glyph_from_rows(&rows).unwrap();
    assert_eq!(cells.len(), GLYPH_CELLS);
    assert_eq!(&cells[0..5], &[0, 1, 1, 0, 1]);
    assert_eq!(&cells[55..60], &[1, 1, 1, 1, 1]);
    assert_eq!(cells.iter().filter(|&&c| c == 1).count(), 8);
    assert!(glyph_from_rows(&vec![0u64; 11]).is_none());
}

#[test]
fn add_glyph_replaces_and_orders() {
    let mut font = Font::new();
    font.add_glyph('b', &vec![1u64; 12]).unwrap();
    font.add_glyph('a', &vec![0u64; 12]).unwrap();
    font.add_glyph('b', &vec![3u64; 12]).unwrap();
    assert_eq!(font.glyphs.len(), 2);
    assert_eq!(font.glyphs[0].ch, 'a');
    assert_eq!(font.glyphs[1].ch, 'b');
    assert_eq!(font.glyphs[1].cells[1], 1);
    assert_eq!(font.add_glyph('c', &vec![1u64; 3]), Err(FontError::WrongRowCount));
    assert_eq!(font.add_glyph('ß', &vec![1u64; 3]), Ok(()));
    assert_eq!(font.glyphs.len(), 2);
}

fn three_glyph_font() -> Font {
    let mut font = Font::new();
    font.add_glyph('#', &vec![31u64; 12]).unwrap(); // 60 cells on
    font.add_glyph(' ', &vec![0u64; 12]).unwrap(); // none on
    font.add_glyph('+', &vec![1u64; 12]).unwrap(); // 12 on
    font.add_glyph('-', &vec![1u64; 12]).unwrap(); // 12 on, after '+'
    font
}

#[test]
fn catalog_is_sorted_and_normalized() {
    let cat = FontSortByLightness::from_font(&three_glyph_font());
    let order: Vec<(u64, char)> = cat.entries.iter().map(|e| (e.lightness, e.ch)).collect();
    assert_eq!(order, vec![(0, ' '), (2000, '+'), (2000, '-'), (10000, '#')]);
    for pair in cat.entries.windows(2) {
        assert!(pair[0].lightness <= pair[1].lightness);
    }
}

#[test]
fn nearest_lookup() {
    let cat = FontSortByLightness::from_font(&three_glyph_font());
    assert_eq!(cat.find_nearest_lightness_char(0).0, ' ');
    assert_eq!(cat.find_nearest_lightness_char(10000).0, '#');
    assert_eq!(cat.find_nearest_lightness_char(60000).0, '#');
    assert_eq!(cat.find_nearest_lightness_char(999).0, ' ');
    // halfway between 0 and 2000: the lighter one wins the tie
    assert_eq!(cat.find_nearest_lightness_char(1000).0, '+');
    // an exact match takes the first of equal entries
    assert_eq!(cat.find_nearest_index(2000), 1);
    assert_eq!(cat.find_nearest_lightness_char(5999).0, '-');
    assert_eq!(cat.find_nearest_lightness_char(6001).0, '#');
    let (c, cells) = cat.find_nearest_lightness_char(9000);
    assert_eq!(c, '#');
    assert!(cells.iter().all(|&x| x == 1));
}

#[test]
fn single_lightness_catalog_is_all_zero() {
    let mut font = Font::new();
    font.add_glyph('x', &vec![1u64; 12]).unwrap();
    let cat = FontSortByLightness::from_font(&font);
    assert_eq!(cat.entries[0].lightness, 0);
    assert_eq!(cat.find_nearest_lightness_char(5000).0, 'x');
}

#[test]
fn last_member_for_a_character_wins() {
    // keys come in serde_json's key order: "a" before "ab"
    let font = Font::load(r#"{"ab": [3,3,3,3,3,3,3,3,3,3,3,3], "a": [1,1,1,1,1,1,1,1,1,1,1,1]}"#)
        .unwrap();
    assert_eq!(font.glyphs.len(), 1);
    assert_eq!(font.glyphs[0].ch, 'a');
    assert_eq!(&font.glyphs[0].cells[0..5], &[1, 1, 0, 0, 0]);
}

#[test]
fn first_faulty_member_decides_the_error() {
    let members = vec![
        ("a".to_string(), Some(vec![Some(1u64); 3])),
        ("b".to_string(), None),
    ];
    assert_eq!(Font::from_members(&members).unwrap_err(), FontError::WrongRowCount);
    let members = vec![
        ("é".to_string(), None),
        ("b".to_string(), Some(vec![Some(1u64), None])),
        ("".to_string(), None),
    ];
    assert_eq!(Font::from_members(&members).unwrap_err(), FontError::NotAnInteger);
    let members = vec![("z".to_string(), Some(vec![Some(16u64); 12]))];
    let font = Font::from_members(&members).unwrap();
    assert!(font.contains_key(&'z'));
    assert_eq!(&font.glyphs[0].cells[0..5], &[0, 0, 0, 0, 1]);
}
