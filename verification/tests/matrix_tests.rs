use render::fire::{Fire, PixelDraw};
use render::matrix::{paint_upscaled, render_frame, BrightnessPulse};
use render::palette::fire_palette;
use render::pixmap::pixmap;
use render::request::payload_len;

#[test]
fn pulse_breathes_over_200_frames() {
    let mut p = BrightnessPulse::new();
    let mut seen = Vec::new();
    for _ in 0..400 {
        seen.push(p.brightness());
        p.advance();
    }
    assert_eq!(seen[0], 100);
    assert_eq!(seen[9], 100);
    assert_eq!(seen[10], 101);
    assert_eq!(seen[100], 110);
    assert_eq!(seen[101], 109);
    assert_eq!(seen[199], 100);
    assert_eq!(seen[200], 100);
    assert_eq!(&seen[0..200], &seen[200..400]);
    assert!(seen.iter().all(|b| (100..=110).contains(b)));
}

#[test]
fn pulse_wraps_past_255() {
    let mut p = BrightnessPulse::new();
    for _ in 0..60 {
        p.advance();
    }
    p.set_brightness(250);
    // the offset is now 60, a tenth of it is 6: 256 wraps to 0
    assert_eq!(p.brightness(), 0);
}

#[test]
fn pulse_keeps_its_period_when_brightness_is_set() {
    let mut p = BrightnessPulse::new();
    let mut q = BrightnessPulse::new();
    for k in 0..450u32 {
        if k % 7 == 3 {
            p.set_brightness((k % 256) as u8);
        }
        p.advance();
        q.advance();
    }
    // both pulses are at the same offset: with base 0 they show it in tenths
    p.set_brightness(0);
    q.set_brightness(0);
    assert_eq!(p.brightness(), q.brightness());
    // 450 ticks: 450 % 200 = 50, offset 50
    assert_eq!(q.brightness(), 5);
}

#[test]
fn reading_the_brightness_does_not_move_the_pulse() {
    let mut p = BrightnessPulse::new();
    for _ in 0..30 {
        p.advance();
    }
    assert_eq!(p.brightness(), 103);
    assert_eq!(p.brightness(), 103);
}

#[test]
fn paint_lights_2x2_blocks() {
    let palette = vec![(1u8, 2u8, 3u8), (4, 5, 6)];
    let mut f = Fire::new(3, 2, &palette);
    let draws = vec![PixelDraw { decay: 0, right_nudge: 1 }; 2];
    f.update_fire_intensity(&draws);
    let mut pix = vec![(9u8, 9u8, 9u8); 1280];
    paint_upscaled(&mut pix, &f);
    for x in 0..3u16 {
        for y in 0..2u16 {
            let c = if x == 1 && y == 1 { (4, 5, 6) } else { (1, 2, 3) };
            for dx in 0..2 {
                for dy in 0..2 {
                    assert_eq!(pix[pixmap(2 * x + dx, 2 * y + dy) as usize], c);
                }
            }
        }
    }
    let lit = pix.iter().filter(|c| **c != (9, 9, 9)).count();
    assert_eq!(lit, 24);
}

#[test]
fn frame_is_gamma_corrected_and_dimmed() {
    let palette = vec![(127u8, 200u8, 255u8)];
    let f = Fire::new(1, 1, &palette);
    let mut pix = vec![(0u8, 0u8, 0u8); 1280];
    let pulse = BrightnessPulse::new();
    let out = render_frame(&mut pix, &f, &pulse);
    assert_eq!(out.len(), 1280);
    // gamma: 127 -> 36, 200 -> 129, 255 -> 255; then scaled by 101 / 256
    assert_eq!(out[pixmap(0, 0) as usize], (14, 50, 100));
    assert_eq!(out[pixmap(1, 1) as usize], (14, 50, 100));
    assert_eq!(out[pixmap(2, 0) as usize], (0, 0, 0));
    assert_eq!(pix[pixmap(1, 0) as usize], (127, 200, 255));
}

#[test]
fn frame_of_the_matrix() {
    let palette = fire_palette();
    let mut f = Fire::new(20, 16, &palette);
    let draws = vec![PixelDraw { decay: 0, right_nudge: 1 }; 16 * 18];
    f.update_fire_intensity(&draws);
    let mut pix = vec![(0u8, 0u8, 0u8); 1280];
    let mut pulse = BrightnessPulse::new();
    let out = render_frame(&mut pix, &f, &pulse);
    assert_eq!(out.len(), 1280);
    // the frame does not move the pulse on
    assert_eq!(pulse.brightness(), 100);
    pulse.advance();
    // the hottest colour at the bottom centre of the fire
    assert_eq!(pix[pixmap(20, 31) as usize], palette[10]);
    assert_eq!(pix[pixmap(21, 30) as usize], palette[10]);
    assert_eq!(pix[pixmap(20, 29) as usize], palette[0]);
}

#[test]
fn payload_strips_nul_padding() {
    let mut buf = vec![0u8; 200];
    let body = b"{\"value\": 42}";
    buf[..body.len()].copy_from_slice(body);
    assert_eq!(payload_len(&buf), body.len());
    assert_eq!(payload_len(&vec![0u8; 200]), 0);
    assert_eq!(payload_len(&vec![1u8, 0, 2]), 3);
    assert_eq!(payload_len(&vec![]), 0);
}
