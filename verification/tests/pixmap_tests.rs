use render::pixmap::pixmap;

#[test]
fn map_pixmap_xy() {
    // first panel
    assert_eq!(pixmap(0, 0), 7);
    assert_eq!(pixmap(1, 0), 6);
    assert_eq!(pixmap(2, 0), 5);
    assert_eq!(pixmap(3, 0), 4);
    assert_eq!(pixmap(7, 0), 0);
    assert_eq!(pixmap(7, 1), 15);

    // second panel
    assert_eq!(pixmap(8, 0), 511);
    assert_eq!(pixmap(15, 0), 504);

    // third panel
    assert_eq!(pixmap(16, 0), 519);

    // y=1
    // first panel
    assert_eq!(pixmap(0, 1), 8);
    assert_eq!(pixmap(1, 1), 9);
    assert_eq!(pixmap(2, 1), 10);
    assert_eq!(pixmap(3, 1), 11);
    assert_eq!(pixmap(7, 1), 15);

    assert_eq!(pixmap(8, 1), 496);
    assert_eq!(pixmap(15, 1), 503);

    assert_eq!(pixmap(16, 1), 520);
}

#[test]
fn pixmap_upside_down_panel_bottom_row() {
    // the second panel is mounted upside down: its last row comes first
    assert_eq!(pixmap(8, 31), 256);
    assert_eq!(pixmap(15, 31), 263);
    assert_eq!(pixmap(8, 30), 271);
    assert_eq!(pixmap(39, 31), 1279);
}

#[test]
fn pixmap_largest_input() {
    // the last column of panel 255, where the position still fits in a u16
    assert_eq!(pixmap(2047, 0), 65528);
    assert_eq!(pixmap(2046, 1), 65526);
    assert_eq!(pixmap(2040, 0), 65535);
    assert_eq!(pixmap(2040, 31), 65280);
}

#[test]
fn pixmap_covers_matrix_once() {
    // 40x32 pixels light each of the 1280 LEDs exactly once
    let mut seen = vec![false; 1280];
    for x in 0..40u16 {
        for y in 0..32u16 {
            let i = pixmap(x, y) as usize;
            assert!(i < 1280);
            assert!(!seen[i]);
            seen[i] = true;
        }
    }
    assert!(seen.iter().all(|s| *s));
}

#[test]
fn pixmap_chain_is_continuous_within_panels() {
    let mut pixel = vec![(0i32, 0i32); 1280];
    for x in 0..40u16 {
        for y in 0..32u16 {
            pixel[pixmap(x, y) as usize] = (x as i32, y as i32);
        }
    }
    for i in 0..1279usize {
        let (x1, y1) = pixel[i];
        let (x2, y2) = pixel[i + 1];
        let neighbours = (x1 - x2).abs() + (y1 - y2).abs() == 1;
        if i % 256 == 255 && (i / 256) % 2 == 1 {
            // from an odd panel the chain jumps to the far column of the next
            assert!(!neighbours);
        } else {
            assert!(neighbours, "{} and {} are not neighbours", i, i + 1);
        }
    }
}
