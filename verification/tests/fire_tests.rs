use render::fire::{Fire, PixelDraw};
use render::palette::fire_palette;

fn heat(fire: &Fire<(u8, u8, u8)>, palette: &[(u8, u8, u8)], x: u8, y: u8) -> usize {
    let c = fire
        .colors()
        .into_iter()
        .find(|c| c.x == x && c.y == y)
        .unwrap()
        .c;
    palette.iter().position(|p| *p == c).unwrap()
}

fn row(fire: &Fire<(u8, u8, u8)>, palette: &[(u8, u8, u8)], width: u8, y: u8) -> Vec<usize> {
    (0..width).map(|x| heat(fire, palette, x, y)).collect()
}

fn same_draws(width: u8, height: u8, decay: i8, right_nudge: u8) -> Vec<PixelDraw> {
    let n = height as usize * (width as usize - 2);
    vec![PixelDraw { decay, right_nudge }; n]
}

/// The draws that the animation makes with a random number generator, as
/// `Fire::new` was given one with a decay factor.
fn random_draws(width: u8, height: u8, decay_factor: f32) -> Vec<PixelDraw> {
    let mut draws = Vec::new();
    for y in 0..height {
        for _x in 1..(width - 1) {
            let decay = (rand::random::<f32>() * decay_factor).floor() as i8;
            let right_nudge = ((f32::from(y) / (1.0 + 4.0 * rand::random::<f32>())) + 1.0) as u8;
            draws.push(PixelDraw { decay, right_nudge });
        }
    }
    draws
}

#[test]
fn it_works() {
    let palette = fire_palette();
    let mut f = Fire::new(10, 8, &palette);
    // for each call to update, there should be a new line of fire on top
    // there should never be any values in x=0 or x=max
    f.update_fire_intensity(&random_draws(10, 8, 1.6));
    f.update_fire_intensity(&random_draws(10, 8, 1.6));
    f.update_fire_intensity(&random_draws(10, 8, 1.6));
    let mut it = f.into_iter();
    while let Some(_c) = it.next() {}
}

#[test]
fn new_fire_is_cold() {
    let palette = fire_palette();
    let f = Fire::new(4, 3, &palette);
    let colors = f.colors();
    assert_eq!(colors.len(), 12);
    assert!(colors.iter().all(|c| c.c == (0, 0, 0)));
}

#[test]
fn iterator_goes_row_by_row() {
    let palette = fire_palette();
    let f = Fire::new(3, 2, &palette);
    let mut it = f.into_iter();
    let mut order = Vec::new();
    while let Some(c) = it.next() {
        order.push((c.x, c.y));
    }
    assert_eq!(order, vec![(0, 0), (1, 0), (2, 0), (0, 1), (1, 1), (2, 1)]);
    let colors = f.colors();
    let from_colors: Vec<(u8, u8)> = colors.iter().map(|c| (c.x, c.y)).collect();
    assert_eq!(from_colors, order);
}

#[test]
fn empty_fire_has_no_pixels() {
    let palette = fire_palette();
    let f = Fire::new(0, 0, &palette);
    assert!(f.into_iter().next().is_none());
    assert!(f.colors().is_empty());
}

#[test]
fn bottom_row_is_fed_from_the_palette() {
    let palette = fire_palette();
    let mut f = Fire::new(5, 3, &palette);
    f.update_fire_intensity(&same_draws(5, 3, 0, 1));
    assert_eq!(row(&f, &palette, 5, 2), vec![0, 10, 10, 10, 0]);
    assert_eq!(row(&f, &palette, 5, 1), vec![0, 0, 0, 0, 0]);
    assert_eq!(row(&f, &palette, 5, 0), vec![0, 0, 0, 0, 0]);
    f.update_fire_intensity(&same_draws(5, 3, 2, 1));
    assert_eq!(row(&f, &palette, 5, 2), vec![0, 8, 8, 8, 0]);
    assert_eq!(row(&f, &palette, 5, 1), vec![0, 8, 8, 8, 0]);
    assert_eq!(row(&f, &palette, 5, 0), vec![0, 0, 0, 0, 0]);
    f.update_fire_intensity(&same_draws(5, 3, 3, 1));
    assert_eq!(row(&f, &palette, 5, 2), vec![0, 7, 7, 7, 0]);
    assert_eq!(row(&f, &palette, 5, 1), vec![0, 5, 5, 5, 0]);
    assert_eq!(row(&f, &palette, 5, 0), vec![0, 5, 5, 5, 0]);
}

#[test]
fn heat_never_drops_below_zero() {
    let palette = fire_palette();
    let mut f = Fire::new(5, 2, &palette);
    f.update_fire_intensity(&same_draws(5, 2, 12, 1));
    assert_eq!(row(&f, &palette, 5, 1), vec![0, 0, 0, 0, 0]);
}

#[test]
fn flames_are_shaped_on_a_wide_fire() {
    let palette = fire_palette();
    let mut f = Fire::new(20, 16, &palette);
    f.update_fire_intensity(&same_draws(20, 16, 1, 1));
    // colder outside the centre, cut off beyond the slanted edges
    assert_eq!(
        row(&f, &palette, 20, 15),
        vec![0, 0, 0, 0, 8, 9, 9, 9, 9, 9, 9, 9, 9, 9, 9, 9, 0, 0, 0, 0]
    );
    assert_eq!(row(&f, &palette, 20, 14), vec![0; 20]);
    f.update_fire_intensity(&same_draws(20, 16, 1, 1));
    assert_eq!(
        row(&f, &palette, 20, 14),
        vec![0, 0, 0, 0, 7, 8, 8, 8, 8, 8, 8, 8, 8, 8, 8, 8, 0, 0, 0, 0]
    );
    assert_eq!(row(&f, &palette, 20, 13), vec![0; 20]);
}

#[test]
fn fire_rises_one_row_per_update_and_edges_stay_dark() {
    let palette = fire_palette();
    let mut f = Fire::new(10, 8, &palette);
    for k in 1..=8u8 {
        f.update_fire_intensity(&random_draws(10, 8, 1.6));
        for y in 0..(8 - k) {
            assert_eq!(row(&f, &palette, 10, y), vec![0; 10]);
        }
        for y in 0..8 {
            assert_eq!(heat(&f, &palette, 0, y), 0);
            assert_eq!(heat(&f, &palette, 9, y), 0);
        }
    }
}

#[test]
fn heats_stay_in_palette() {
    let palette = fire_palette();
    let mut f = Fire::new(20, 16, &palette);
    for _ in 0..50 {
        f.update_fire_intensity(&random_draws(20, 16, 2.6));
        // every heat names a colour of the palette, so this cannot panic
        assert_eq!(f.colors().len(), 320);
    }
}

#[test]
fn set_palette_recolours_without_changing_heats() {
    let palette = fire_palette();
    let mut f = Fire::new(5, 3, &palette);
    f.update_fire_intensity(&same_draws(5, 3, 0, 1));
    let reversed: Vec<(u8, u8, u8)> = palette.iter().rev().cloned().collect();
    f.set_palette(&reversed);
    assert_eq!(row(&f, &reversed, 5, 2), vec![0, 10, 10, 10, 0]);
    assert_eq!(f.colors()[11].c, palette[0]);
}

#[test]
fn iterator_gives_none_for_a_row_past_the_last() {
    let palette = fire_palette();
    let f = Fire::new(3, 2, &palette);
    let mut it = f.into_iter();
    for _ in 0..6 {
        assert!(it.next().is_some());
    }
    // the next `width` calls give None; the one after would index past the
    // last row, as the iterator is not fused
    for _ in 0..3 {
        assert!(it.next().is_none());
    }
}

#[test]
fn two_iterators_agree() {
    let palette = fire_palette();
    let mut f = Fire::new(6, 4, &palette);
    f.update_fire_intensity(&random_draws(6, 4, 1.6));
    let (mut a, mut b) = (f.into_iter(), f.into_iter());
    loop {
        match (a.next(), b.next()) {
            (Some(p), Some(q)) => assert_eq!((p.c, p.x, p.y), (q.c, q.x, q.y)),
            (None, None) => break,
            _ => panic!("the iterators disagree"),
        }
    }
}

#[test]
fn update_is_defined_matches_the_overflows() {
    let palette = fire_palette();
    let f = Fire::new(5, 3, &palette);
    assert!(f.update_is_defined(&same_draws(5, 3, 0, 1)));
    assert!(f.update_is_defined(&same_draws(5, 3, 127, 1)));
    // 10 - (-118) = 128 overflows an i8 at the bottom row
    assert!(!f.update_is_defined(&same_draws(5, 3, -118, 1)));
    assert!(f.update_is_defined(&same_draws(5, 3, -117, 1)));
    // one draw too few
    let mut short = same_draws(5, 3, 0, 1);
    short.pop();
    assert!(!f.update_is_defined(&short));
    // a row to update and no column to scan
    let g = Fire::new(0, 2, &palette);
    assert!(!g.update_is_defined(&Vec::new()));
    // an empty palette has no heat for the bottom row
    let empty: Vec<(u8, u8, u8)> = Vec::new();
    let h = Fire::new(5, 3, &empty);
    assert!(!h.update_is_defined(&same_draws(5, 3, 0, 1)));
    // too wide: x + 11 overflows a u8
    let wide = Fire::new(250, 1, &palette);
    assert!(!wide.update_is_defined(&same_draws(250, 1, 0, 1)));
}

#[test]
fn heats_fit_palette_checks_every_pixel() {
    let palette = fire_palette();
    let mut f = Fire::new(5, 3, &palette);
    assert!(f.heats_fit_palette());
    f.update_fire_intensity(&same_draws(5, 3, 0, 1));
    assert!(f.heats_fit_palette());
    let small = vec![(0u8, 0u8, 0u8); 10];
    f.set_palette(&small);
    // heat 10 has no colour in a palette of 10
    assert!(!f.heats_fit_palette());
}
