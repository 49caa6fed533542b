use render::canvas::fill_style;
use render::palette::fire_palette;

#[test]
fn fill_style_is_css_hex() {
    assert_eq!(fill_style((0xDE, 0x9A, 0x1A)), "#de9a1a");
    assert_eq!(fill_style((0, 0, 0)), "#000000");
    assert_eq!(fill_style((255, 16, 9)), "#ff1009");
}

#[test]
fn fill_style_matches_format() {
    for c in fire_palette() {
        assert_eq!(fill_style(c), format!("#{:02x}{:02x}{:02x}", c.0, c.1, c.2));
    }
}

#[test]
fn palette_runs_from_black_to_pale_yellow() {
    let p = fire_palette();
    assert_eq!(p.len(), 11);
    assert_eq!(p[0], (0, 0, 0));
    assert_eq!(p[4], (0xD1, 0x4B, 0x02));
    assert_eq!(p[10], (0xFA, 0xFF, 0x4A));
}
