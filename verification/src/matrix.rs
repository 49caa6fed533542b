use vstd::prelude::*;
use crate::fire::{ColorCoord, Fire, FireView, heats_in_palette, pixel_color};
use crate::fire::fire_wf;
use crate::pixmap::{PANEL_H, lemma_led_pixel_inverts, pixmap, pixmap_defined, pixmap_spec};

verus! {

/// The brightness of the matrix, which swells and fades slowly above a base
/// brightness.
pub struct BrightnessPulse {
    brightness: u8,
    delta_brightness: i8,
    brightness_change: i8,
}

/// The abstract state of a pulse: the base brightness, the current offset
/// above it in tenths, and the direction in which the offset moves.
pub struct PulseView {
    pub brightness: u8,
    pub delta: int,
    pub change: int,
}

impl View for BrightnessPulse {
    type V = PulseView;

    closed spec fn view(&self) -> PulseView {
        PulseView {
            brightness: self.brightness,
            delta: self.delta_brightness as int,
            change: self.brightness_change as int,
        }
    }
}

/// The offset runs between 0 and 100 and turns at either end.
pub open spec fn pulse_wf(p: PulseView) -> bool {
    &&& 0 <= p.delta <= 100
    &&& p.change == 1 || p.change == -1
    &&& p.change == 1 ==> p.delta < 100
    &&& p.change == -1 ==> p.delta > 0
}

/// The brightness of the current frame: the base brightness raised by a
/// tenth of the offset, wrapping around past 255.
pub open spec fn pulse_brightness(p: PulseView) -> u8 {
    ((p.brightness + p.delta / 10) % 256) as u8
}

/// The state for the next frame: the offset moves one step, and turns back
/// down at 100 and back up at 0.
pub open spec fn pulse_step(p: PulseView) -> PulseView {
    let delta = p.delta + p.change;
    let change = if p.change == 1 && delta == 100 {
        -1
    } else if p.change == -1 && delta == 0 {
        1
    } else {
        p.change
    };
    PulseView { brightness: p.brightness, delta, change }
}

/// The state of a new pulse: base brightness 100, at the bottom of its swell.
pub open spec fn pulse_start() -> PulseView {
    PulseView { brightness: 100, delta: 0, change: 1 }
}

/// One tick of the matrix as the pulse sees it: the base brightness may have
/// been set since the last tick, then the offset moves on.
pub open spec fn pulse_tick(p: PulseView, set: Option<u8>) -> PulseView {
    match set {
        Some(brightness) => pulse_step(PulseView { brightness, ..p }),
        None => pulse_step(p),
    }
}

/// The state of the pulse after `k` ticks from `start`, where `sets[i]` is the
/// base brightness set before tick `i`, if any.
pub open spec fn pulse_run(start: PulseView, sets: Seq<Option<u8>>, k: nat) -> PulseView
    decreases k,
{
    if k == 0 {
        start
    } else {
        pulse_tick(pulse_run(start, sets, (k - 1) as nat), sets[k - 1])
    }
}

/// The offset `k` frames into a period: up from 0 to 100, then back down.
pub open spec fn triangle(k: int) -> int {
    if k <= 100 {
        k
    } else {
        200 - k
    }
}

impl BrightnessPulse {
    /// Whether the pulse is in one of the states it can reach.
    pub closed spec fn wf(&self) -> bool {
        pulse_wf(self@)
    }

    /// A pulse at base brightness 100, at the bottom of its swell.
    pub fn new() -> (p: BrightnessPulse)
        ensures
            p.wf(),
            p@ == pulse_start(),
    {
        BrightnessPulse { brightness: 100, delta_brightness: 0, brightness_change: 1 }
    }

    /// Sets the base brightness; the swell goes on where it was.
    pub fn set_brightness(&mut self, brightness: u8)
        ensures
            final(self)@ == (PulseView { brightness, ..old(self)@ }),
            old(self).wf() ==> final(self).wf(),
    {
        self.brightness = brightness;
    }

    /// The brightness of the current frame.
    pub fn brightness(&self) -> (b: u8)
        requires
            self.wf(),
        ensures
            b == pulse_brightness(self@),
    {
        let db = self.delta_brightness / 10;
        let base = self.brightness;
        assert(0 <= db <= 10);
        let b = (base as i16 + (db as i16)) as u8;
        assert(b as int == (base as int + db as int) % 256) by (bit_vector)
            requires
                0 <= db <= 10,
                b == (base as i16 + (db as i16)) as u8,
        ;
        b
    }

    /// Moves the pulse on to the next frame, once the current frame has been
    /// sent.
    pub fn advance(&mut self)
        requires
            old(self).wf(),
        ensures
            final(self).wf(),
            final(self)@ == pulse_step(old(self)@),
    {
        self.delta_brightness = self.delta_brightness + self.brightness_change;
        if self.brightness_change == 1 && self.delta_brightness == 100 {
            self.brightness_change = -1;
        }
        if self.brightness_change == -1 && self.delta_brightness == 0 {
            self.brightness_change = 1;
        }
    }
}

/// The pulse breathes with a period of 200 ticks whatever base brightness is
/// set between them: after `k` ticks from a new pulse the offset is
/// `triangle(k % 200)`, rising during the first half of each period and
/// falling during the second, so the brightness of a frame stays between the
/// base and the base raised by 10; the base is the last one set.
pub proof fn lemma_pulse_period(sets: Seq<Option<u8>>, k: nat)
    requires
        k <= sets.len(),
    ensures
        pulse_wf(pulse_run(pulse_start(), sets, k)),
        pulse_run(pulse_start(), sets, k).delta == triangle(k as int % 200),
        pulse_run(pulse_start(), sets, k).change == (if k % 200 < 100 {
            1int
        } else {
            -1int
        }),
        0 <= pulse_run(pulse_start(), sets, k).delta / 10 <= 10,
        k > 0 ==> pulse_run(pulse_start(), sets, k).brightness == (match sets[k - 1] {
            Some(b) => b,
            None => pulse_run(pulse_start(), sets, (k - 1) as nat).brightness,
        }),
    decreases k,
{
    if k > 0 {
        lemma_pulse_period(sets, (k - 1) as nat);
        let j = (k - 1) as int % 200;
        assert(k as int % 200 == if j == 199 {
            0
        } else {
            j + 1
        }) by {
            vstd::arithmetic::div_mod::lemma_fundamental_div_mod_converse(
                k as int,
                200,
                if j == 199 {
                    (k - 1) as int / 200 + 1
                } else {
                    (k - 1) as int / 200
                },
                if j == 199 {
                    0
                } else {
                    j + 1
                },
            );
        }
    }
}

/// The LED that shows the quarter `(dx, dy)` of the 2x2 block into which the
/// fire pixel `(x, y)` is scaled up.
pub open spec fn upscaled_index(x: int, y: int, dx: int, dy: int) -> int {
    pixmap_spec(2 * x + dx, 2 * y + dy)
}

/// Whether that LED's position is computed without overflow and lies in a
/// buffer of `len` LEDs.
pub open spec fn upscaled_fits(x: int, y: int, dx: int, dy: int, len: int) -> bool {
    &&& pixmap_defined(2 * x + dx, 2 * y + dy)
    &&& upscaled_index(x, y, dx, dy) < len
}

/// Every 2x2 block of the scaled-up fire fits in a buffer of `len` LEDs.
pub open spec fn upscale_fits<T>(v: FireView<T>, len: int) -> bool {
    forall|x: int, y: int, dx: int, dy: int|
        0 <= x < v.width && 0 <= y < v.height && 0 <= dx <= 1 && 0 <= dy <= 1
            ==> #[trigger] upscaled_fits(x, y, dx, dy, len)
}

/// Paints the 2x2 block of one fire pixel into the LED buffer.
pub open spec fn paint_pixel<T: Copy>(pix: Seq<T>, p: ColorCoord<T>) -> Seq<T> {
    pix.update(upscaled_index(p.x as int, p.y as int, 0, 0), p.c).update(
        upscaled_index(p.x as int, p.y as int, 0, 1),
        p.c,
    ).update(upscaled_index(p.x as int, p.y as int, 1, 0), p.c).update(
        upscaled_index(p.x as int, p.y as int, 1, 1),
        p.c,
    )
}

/// The LED buffer after painting the first `k` pixels of the fire, in the
/// order in which its iterator hands them out.
pub open spec fn paint_all<T: Copy>(pix: Seq<T>, v: FireView<T>, k: nat) -> Seq<T>
    decreases k,
{
    if k == 0 {
        pix
    } else {
        paint_pixel(paint_all(pix, v, (k - 1) as nat), pixel_color(v, k - 1))
    }
}

/// Paints the fire into the LED buffer, each fire pixel as a 2x2 block of
/// LEDs, placed along the zig-zag chain by `pixmap`.
pub fn paint_upscaled<'a, T: Copy>(pix: &mut Vec<T>, fire: &'a Fire<'a, T>)
    requires
        fire.wf(),
        heats_in_palette(fire@),
        fire@.height > 0 ==> fire@.width > 0,
        upscale_fits(fire@, old(pix)@.len() as int),
    ensures
        final(pix)@ == paint_all(old(pix)@, fire@, (fire@.width * fire@.height) as nat),
{
    let ghost v = fire@;
    let ghost start = pix@;
    let colors = fire.colors();
    let mut k: usize = 0;
    while k < colors.len()
        invariant
            0 <= k <= colors@.len(),
            colors@.len() == v.width * v.height,
            forall|j: int| 0 <= j < v.width * v.height ==> #[trigger] colors@[j] == pixel_color(v, j),
            upscale_fits(v, start.len() as int),
            pix@.len() == start.len(),
            pix@ == paint_all(start, v, k as nat),
        decreases colors@.len() - k,
    {
        let p = &colors[k];
        let ghost x = p.x as int;
        let ghost y = p.y as int;
        assert(colors@[k as int] == pixel_color(v, k as int));
        proof {
            let w = v.width as int;
            let h = v.height as int;
            let kk = k as int;
            assert(w > 0) by (nonlinear_arith)
                requires
                    0 <= kk < w * h,
                    w >= 0,
                    h >= 0,
            ;
            vstd::arithmetic::div_mod::lemma_fundamental_div_mod(kk, w);
            let q = kk / w;
            let r = kk % w;
            assert(0 <= r < w);
            assert(0 <= q < h) by (nonlinear_arith)
                requires
                    kk == w * q + r,
                    0 <= r < w,
                    0 <= kk < w * h,
            ;
        }
        assert(upscaled_fits(x, y, 0, 0, start.len() as int));
        assert(upscaled_fits(x, y, 0, 1, start.len() as int));
        assert(upscaled_fits(x, y, 1, 0, start.len() as int));
        assert(upscaled_fits(x, y, 1, 1, start.len() as int));
        // scale up to 2x2
        let i00 = pixmap(p.x as u16 * 2 + 0, p.y as u16 * 2 + 0) as usize;
        pix.set(i00, p.c);
        let i01 = pixmap(p.x as u16 * 2 + 0, p.y as u16 * 2 + 1) as usize;
        pix.set(i01, p.c);
        let i10 = pixmap(p.x as u16 * 2 + 1, p.y as u16 * 2 + 0) as usize;
        pix.set(i10, p.c);
        let i11 = pixmap(p.x as u16 * 2 + 1, p.y as u16 * 2 + 1) as usize;
        pix.set(i11, p.c);
        k = k + 1;
    }
    assert(k == v.width * v.height);
}

/// The gamma table of `smart_leds`: the value sent to an LED for each
/// linear channel value (127, half brightness, becomes 36).
pub open spec fn gamma_table() -> Seq<u8> {
    seq![
        0u8, 0, 0, 0, 0, 0, 0, 0, 0, 0, 0, 0, 0, 0, 0, 0,
        0, 0, 0, 0, 0, 0, 0, 0, 0, 0, 0, 0, 1, 1, 1, 1,
        1, 1, 1, 1, 1, 1, 1, 1, 1, 2, 2, 2, 2, 2, 2, 2,
        2, 3, 3, 3, 3, 3, 3, 3, 4, 4, 4, 4, 4, 5, 5, 5,
        5, 6, 6, 6, 6, 7, 7, 7, 7, 8, 8, 8, 9, 9, 9, 10,
        10, 10, 11, 11, 11, 12, 12, 13, 13, 13, 14, 14, 15, 15, 16, 16,
        17, 17, 18, 18, 19, 19, 20, 20, 21, 21, 22, 22, 23, 24, 24, 25,
        25, 26, 27, 27, 28, 29, 29, 30, 31, 32, 32, 33, 34, 35, 35, 36,
        37, 38, 39, 39, 40, 41, 42, 43, 44, 45, 46, 47, 48, 49, 50, 50,
        51, 52, 54, 55, 56, 57, 58, 59, 60, 61, 62, 63, 64, 66, 67, 68,
        69, 70, 72, 73, 74, 75, 77, 78, 79, 81, 82, 83, 85, 86, 87, 89,
        90, 92, 93, 95, 96, 98, 99, 101, 102, 104, 105, 107, 109, 110, 112, 114,
        115, 117, 119, 120, 122, 124, 126, 127, 129, 131, 133, 135, 137, 138, 140, 142,
        144, 146, 148, 150, 152, 154, 156, 158, 160, 162, 164, 167, 169, 171, 173, 175,
        177, 180, 182, 184, 186, 189, 191, 193, 196, 198, 200, 203, 205, 208, 210, 213,
        215, 218, 220, 223, 225, 228, 231, 233, 236, 239, 241, 244, 247, 249, 252, 255,
    ]
}

/// The value that the gamma table of `smart_leds` gives a colour channel.
pub open spec fn gamma8(c: u8) -> u8 {
    gamma_table()[c as int]
}

/// A colour channel dimmed to `brightness`, as `smart_leds::brightness`
/// computes it: scaled by `brightness + 1` out of 256, rounded down.
pub open spec fn dim_channel(c: u8, brightness: u8) -> u8 {
    (c as int * (brightness as int + 1) / 256) as u8
}

/// A colour as it is sent to the LEDs: gamma corrected, then dimmed.
pub open spec fn adjusted_color(c: (u8, u8, u8), brightness: u8) -> (u8, u8, u8) {
    (
        dim_channel(gamma8(c.0), brightness),
        dim_channel(gamma8(c.1), brightness),
        dim_channel(gamma8(c.2), brightness),
    )
}

/// Calls `smart_leds::gamma` on the colours. Trusted to give one colour for
/// each colour in, in order, with every channel replaced by its entry in the
/// crate's gamma table, written out here as `gamma_table`.
#[verifier::external_body]
fn gamma_corrected(pix: &Vec<(u8, u8, u8)>) -> (out: Vec<(u8, u8, u8)>)
    ensures
        out@.len() == pix@.len(),
        forall|i: int|
            0 <= i < pix@.len() ==> #[trigger] out@[i] == (
                gamma8(pix@[i].0),
                gamma8(pix@[i].1),
                gamma8(pix@[i].2),
            ),
{
    let colors = pix.iter().map(|&(r, g, b)| smart_leds::RGB8 { r, g, b });
    smart_leds::gamma(colors).map(|c| (c.r, c.g, c.b)).collect()
}

/// Calls `smart_leds::brightness` on the colours. Trusted to give one colour
/// for each colour in, in order, with every channel `c` replaced by
/// `c * (brightness + 1) / 256`, which its source computes in `u16`.
#[verifier::external_body]
fn dimmed(pix: &Vec<(u8, u8, u8)>, brightness: u8) -> (out: Vec<(u8, u8, u8)>)
    ensures
        out@.len() == pix@.len(),
        forall|i: int|
            0 <= i < pix@.len() ==> #[trigger] out@[i] == (
                dim_channel(pix@[i].0, brightness),
                dim_channel(pix@[i].1, brightness),
                dim_channel(pix@[i].2, brightness),
            ),
{
    let colors = pix.iter().map(|&(r, g, b)| smart_leds::RGB8 { r, g, b });
    smart_leds::brightness(colors, brightness).map(|c| (c.r, c.g, c.b)).collect()
}

/// The work of one frame once the fire has been updated: paints the fire
/// into the LED buffer, scaled up to 2x2, and gives the colours to send to
/// the LEDs, gamma corrected and dimmed to the pulse's brightness for this
/// frame. The pulse is moved on with `advance` once the frame has been sent.
pub fn render_frame<'a>(
    pix: &mut Vec<(u8, u8, u8)>,
    fire: &'a Fire<'a, (u8, u8, u8)>,
    pulse: &BrightnessPulse,
) -> (out: Vec<(u8, u8, u8)>)
    requires
        fire.wf(),
        heats_in_palette(fire@),
        fire@.height > 0 ==> fire@.width > 0,
        upscale_fits(fire@, old(pix)@.len() as int),
        pulse.wf(),
    ensures
        final(pix)@ == paint_all(old(pix)@, fire@, (fire@.width * fire@.height) as nat),
        out@.len() == final(pix)@.len(),
        forall|i: int|
            0 <= i < out@.len() ==> #[trigger] out@[i] == adjusted_color(
                final(pix)@[i],
                pulse_brightness(pulse@),
            ),
{
    paint_upscaled(pix, fire);
    let b = pulse.brightness();
    let corrected = gamma_corrected(pix);
    let out = dimmed(&corrected, b);
    assert forall|i: int| 0 <= i < out@.len() implies #[trigger] out@[i] == adjusted_color(pix@[i], b) by {
        assert(corrected@[i] == (gamma8(pix@[i].0), gamma8(pix@[i].1), gamma8(pix@[i].2)));
    }
    out
}

/// The LED that shows the quarter `(dx, dy)` of the block of the `j`-th pixel
/// that the fire's iterator hands out.
pub open spec fn block_index<T>(v: FireView<T>, j: int, dx: int, dy: int) -> int {
    upscaled_index(j % (v.width as int), j / (v.width as int), dx, dy)
}

/// The blocks of distinct pixels share no LED when the scaled-up fire fits
/// on the panels' rows.
proof fn lemma_blocks_disjoint<T>(v: FireView<T>, j1: int, dx1: int, dy1: int, j2: int, dx2: int, dy2: int)
    requires
        v.width > 0,
        2 * v.height <= PANEL_H,
        0 <= j1 < v.width * v.height,
        0 <= j2 < v.width * v.height,
        0 <= dx1 <= 1 && 0 <= dy1 <= 1,
        0 <= dx2 <= 1 && 0 <= dy2 <= 1,
        block_index(v, j1, dx1, dy1) == block_index(v, j2, dx2, dy2),
    ensures
        j1 == j2,
        dx1 == dx2,
        dy1 == dy2,
{
    let w = v.width as int;
    let h = v.height as int;
    vstd::arithmetic::div_mod::lemma_fundamental_div_mod(j1, w);
    vstd::arithmetic::div_mod::lemma_fundamental_div_mod(j2, w);
    let (x1, y1, x2, y2) = (j1 % w, j1 / w, j2 % w, j2 / w);
    assert(0 <= y1 < h) by (nonlinear_arith)
        requires
            j1 == w * y1 + x1,
            0 <= x1 < w,
            0 <= j1 < w * h,
    ;
    assert(0 <= y2 < h) by (nonlinear_arith)
        requires
            j2 == w * y2 + x2,
            0 <= x2 < w,
            0 <= j2 < w * h,
    ;
    lemma_led_pixel_inverts(2 * x1 + dx1, 2 * y1 + dy1);
    lemma_led_pixel_inverts(2 * x2 + dx2, 2 * y2 + dy2);
}

/// Painting the first `k` pixels lights the blocks of those pixels in their
/// colours and leaves every other LED as it was.
proof fn lemma_paint_prefix<T: Copy>(pix: Seq<T>, v: FireView<T>, k: nat)
    requires
        fire_wf(v),
        v.width > 0,
        2 * v.height <= PANEL_H,
        upscale_fits(v, pix.len() as int),
        k <= v.width * v.height,
    ensures
        paint_all(pix, v, k).len() == pix.len(),
        forall|j: int, dx: int, dy: int|
            0 <= j < k && 0 <= dx <= 1 && 0 <= dy <= 1 ==> paint_all(pix, v, k)[#[trigger] block_index(
                v,
                j,
                dx,
                dy,
            )] == pixel_color(v, j).c,
        forall|i: int|
            0 <= i < pix.len() && !(exists|j: int, dx: int, dy: int|
                0 <= j < k && 0 <= dx <= 1 && 0 <= dy <= 1 && #[trigger] block_index(v, j, dx, dy) == i)
                ==> #[trigger] paint_all(pix, v, k)[i] == pix[i],
    decreases k,
{
    if k > 0 {
        let k1 = (k - 1) as nat;
        lemma_paint_prefix(pix, v, k1);
        let w = v.width as int;
        let h = v.height as int;
        let kk = k1 as int;
        vstd::arithmetic::div_mod::lemma_fundamental_div_mod(kk, w);
        assert(0 <= kk / w < h) by (nonlinear_arith)
            requires
                kk == w * (kk / w) + kk % w,
                0 <= kk % w < w,
                0 <= kk < w * h,
        ;
        let p = pixel_color(v, kk);
        assert(p.x as int == kk % w && p.y as int == kk / w);
        assert(upscaled_fits(kk % w, kk / w, 0, 0, pix.len() as int));
        assert(upscaled_fits(kk % w, kk / w, 0, 1, pix.len() as int));
        assert(upscaled_fits(kk % w, kk / w, 1, 0, pix.len() as int));
        assert(upscaled_fits(kk % w, kk / w, 1, 1, pix.len() as int));
        let prev = paint_all(pix, v, k1);
        let next = paint_all(pix, v, k);
        assert(next == paint_pixel(prev, p));
        assert(block_index(v, kk, 0, 0) == upscaled_index(p.x as int, p.y as int, 0, 0));
        assert(block_index(v, kk, 0, 1) == upscaled_index(p.x as int, p.y as int, 0, 1));
        assert(block_index(v, kk, 1, 0) == upscaled_index(p.x as int, p.y as int, 1, 0));
        assert(block_index(v, kk, 1, 1) == upscaled_index(p.x as int, p.y as int, 1, 1));
        assert(p.c == pixel_color(v, kk).c);
        assert forall|j: int, dx: int, dy: int|
            0 <= j < k && 0 <= dx <= 1 && 0 <= dy <= 1 implies next[#[trigger] block_index(v, j, dx, dy)]
            == pixel_color(v, j).c by {
            vstd::arithmetic::div_mod::lemma_fundamental_div_mod(j, w);
            assert(0 <= j / w < h) by (nonlinear_arith)
                requires
                    j == w * (j / w) + j % w,
                    0 <= j % w < w,
                    0 <= j < kk + 1,
                    kk < w * h,
            ;
            assert(upscaled_fits(j % w, j / w, dx, dy, pix.len() as int));
            if block_index(v, j, dx, dy) == block_index(v, kk, 0, 0) {
                lemma_blocks_disjoint(v, j, dx, dy, kk, 0, 0);
            }
            if block_index(v, j, dx, dy) == block_index(v, kk, 0, 1) {
                lemma_blocks_disjoint(v, j, dx, dy, kk, 0, 1);
            }
            if block_index(v, j, dx, dy) == block_index(v, kk, 1, 0) {
                lemma_blocks_disjoint(v, j, dx, dy, kk, 1, 0);
            }
            if block_index(v, j, dx, dy) == block_index(v, kk, 1, 1) {
                lemma_blocks_disjoint(v, j, dx, dy, kk, 1, 1);
            }
        }
        assert forall|i: int|
            0 <= i < pix.len() && !(exists|j: int, dx: int, dy: int|
                0 <= j < k && 0 <= dx <= 1 && 0 <= dy <= 1 && #[trigger] block_index(v, j, dx, dy) == i)
            implies #[trigger] next[i] == pix[i] by {
            assert(block_index(v, kk, 0, 0) != i);
            assert(block_index(v, kk, 0, 1) != i);
            assert(block_index(v, kk, 1, 0) != i);
            assert(block_index(v, kk, 1, 1) != i);
            assert(!(exists|j: int, dx: int, dy: int|
                0 <= j < k1 && 0 <= dx <= 1 && 0 <= dy <= 1 && #[trigger] block_index(v, j, dx, dy) == i));
        }
    }
}

/// Each pixel of the fire lights its own 2x2 block of LEDs: when the
/// scaled-up fire fits on the panels' rows, after painting, the four LEDs of
/// pixel `(x, y)` show the colour of its heat, and every LED outside the
/// blocks keeps the colour it had.
pub proof fn lemma_paint_lights_blocks<T: Copy>(pix: Seq<T>, v: FireView<T>)
    requires
        fire_wf(v),
        2 * v.height <= PANEL_H,
        upscale_fits(v, pix.len() as int),
    ensures
        paint_all(pix, v, (v.width * v.height) as nat).len() == pix.len(),
        forall|x: int, y: int, dx: int, dy: int|
            0 <= x < v.width && 0 <= y < v.height && 0 <= dx <= 1 && 0 <= dy <= 1 ==> paint_all(
                pix,
                v,
                (v.width * v.height) as nat,
            )[#[trigger] upscaled_index(x, y, dx, dy)] == v.palette[v.cells[x][y] as int],
        forall|i: int|
            0 <= i < pix.len() && !(exists|x: int, y: int, dx: int, dy: int|
                0 <= x < v.width && 0 <= y < v.height && 0 <= dx <= 1 && 0 <= dy <= 1
                    && #[trigger] upscaled_index(x, y, dx, dy) == i) ==> #[trigger] paint_all(
                pix,
                v,
                (v.width * v.height) as nat,
            )[i] == pix[i],
{
    let w = v.width as int;
    let h = v.height as int;
    let n = (v.width * v.height) as nat;
    if w == 0 {
        assert(n == 0) by (nonlinear_arith)
            requires
                w == 0,
                n == w * h,
        ;
    } else {
        lemma_paint_prefix(pix, v, n);
        assert forall|x: int, y: int, dx: int, dy: int|
            0 <= x < w && 0 <= y < h && 0 <= dx <= 1 && 0 <= dy <= 1 implies paint_all(pix, v, n)[#[trigger] upscaled_index(
            x,
            y,
            dx,
            dy,
        )] == v.palette[v.cells[x][y] as int] by {
            let j = y * w + x;
            vstd::arithmetic::div_mod::lemma_fundamental_div_mod_converse(j, w, y, x);
            assert(0 <= j < n) by (nonlinear_arith)
                requires
                    j == y * w + x,
                    0 <= x < w,
                    0 <= y < h,
                    n == w * h,
            ;
            assert(block_index(v, j, dx, dy) == upscaled_index(x, y, dx, dy));
        }
        assert forall|i: int|
            0 <= i < pix.len() && !(exists|x: int, y: int, dx: int, dy: int|
                0 <= x < w && 0 <= y < h && 0 <= dx <= 1 && 0 <= dy <= 1 && #[trigger] upscaled_index(
                    x,
                    y,
                    dx,
                    dy,
                ) == i) implies #[trigger] paint_all(pix, v, n)[i] == pix[i] by {
            if exists|j: int, dx: int, dy: int|
                0 <= j < n && 0 <= dx <= 1 && 0 <= dy <= 1 && #[trigger] block_index(v, j, dx, dy) == i {
                let (j, dx, dy) = choose|j: int, dx: int, dy: int|
                    0 <= j < n && 0 <= dx <= 1 && 0 <= dy <= 1 && #[trigger] block_index(v, j, dx, dy) == i;
                vstd::arithmetic::div_mod::lemma_fundamental_div_mod(j, w);
                assert(0 <= j / w < h) by (nonlinear_arith)
                    requires
                        j == w * (j / w) + j % w,
                        0 <= j % w < w,
                        0 <= j < n,
                        n == w * h,
                ;
                assert(upscaled_index(j % w, j / w, dx, dy) == i);
                assert(false);
            }
        }
    }
}

/// How a colour is dimmed: each channel is its gamma value scaled by
/// `brightness + 1` out of 256, rounded down, for every brightness. So full
/// brightness (255) sends the gamma values unchanged, a higher brightness
/// never gives a darker channel, and no channel comes out brighter than its
/// gamma value.
pub proof fn lemma_dimming(c: (u8, u8, u8), b1: u8, b2: u8)
    ensures
        adjusted_color(c, b1).0 as int == gamma8(c.0) as int * (b1 as int + 1) / 256,
        adjusted_color(c, b1).1 as int == gamma8(c.1) as int * (b1 as int + 1) / 256,
        adjusted_color(c, b1).2 as int == gamma8(c.2) as int * (b1 as int + 1) / 256,
        adjusted_color(c, 255) == (gamma8(c.0), gamma8(c.1), gamma8(c.2)),
        adjusted_color(c, b1).0 <= gamma8(c.0),
        adjusted_color(c, b1).1 <= gamma8(c.1),
        adjusted_color(c, b1).2 <= gamma8(c.2),
        b1 <= b2 ==> {
            &&& adjusted_color(c, b1).0 <= adjusted_color(c, b2).0
            &&& adjusted_color(c, b1).1 <= adjusted_color(c, b2).1
            &&& adjusted_color(c, b1).2 <= adjusted_color(c, b2).2
        },
{
    assert forall|g: u8, b: u8| #![trigger dim_channel(g, b)]
        dim_channel(g, b) as int == g as int * (b as int + 1) / 256 && dim_channel(g, b) <= g by {
        assert(0 <= g as int * (b as int + 1) <= 255 * 256) by (nonlinear_arith)
            requires
                g <= 255,
                b <= 255,
        ;
        assert(g as int * (b as int + 1) / 256 <= g) by (nonlinear_arith)
            requires
                g <= 255,
                b <= 255,
        ;
    }
    assert forall|g: u8| #![trigger dim_channel(g, 255)] dim_channel(g, 255) == g by {
        assert(g as int * 256 / 256 == g) by (nonlinear_arith);
    }
    assert forall|g: u8| b1 <= b2 implies #[trigger] dim_channel(g, b1) <= dim_channel(g, b2) by {
        assert(g as int * (b1 as int + 1) <= g as int * (b2 as int + 1)) by (nonlinear_arith)
            requires
                b1 <= b2,
                g >= 0,
        ;
        vstd::arithmetic::div_mod::lemma_div_is_ordered(
            g as int * (b1 as int + 1),
            g as int * (b2 as int + 1),
            256,
        );
    }
    assert(dim_channel(gamma8(c.0), b1) as int == gamma8(c.0) as int * (b1 as int + 1) / 256);
    assert(dim_channel(gamma8(c.1), b1) as int == gamma8(c.1) as int * (b1 as int + 1) / 256);
    assert(dim_channel(gamma8(c.2), b1) as int == gamma8(c.2) as int * (b1 as int + 1) / 256);
    assert(dim_channel(gamma8(c.0), 255) == gamma8(c.0));
    assert(dim_channel(gamma8(c.1), 255) == gamma8(c.1));
    assert(dim_channel(gamma8(c.2), 255) == gamma8(c.2));
    if b1 <= b2 {
        assert(dim_channel(gamma8(c.0), b1) <= dim_channel(gamma8(c.0), b2));
        assert(dim_channel(gamma8(c.1), b1) <= dim_channel(gamma8(c.1), b2));
        assert(dim_channel(gamma8(c.2), b1) <= dim_channel(gamma8(c.2), b2));
    }
}

/// The brightness of a frame is the base brightness raised by a tenth of the
/// offset: in a reachable state, the base itself while the offset is below
/// 10, and never more than 10 above the base; past 255 it wraps around.
pub proof fn lemma_frame_brightness(p: PulseView)
    requires
        pulse_wf(p),
    ensures
        p.brightness as int + p.delta / 10 <= 255 ==> pulse_brightness(p) as int == p.brightness
            as int + p.delta / 10,
        p.brightness as int + p.delta / 10 > 255 ==> pulse_brightness(p) as int == p.brightness
            as int + p.delta / 10 - 256,
        0 <= p.delta / 10 <= 10,
        p.delta < 10 ==> pulse_brightness(p) == p.brightness,
{
}

/// Each entry of the gamma table is at most the next.
proof fn lemma_gamma_table_steps()
    ensures
        forall|i: int| 0 <= i < 255 ==> #[trigger] gamma_table()[i] <= gamma_table()[i + 1],
{
}

/// Entries further along the gamma table are at least as large.
proof fn lemma_gamma_table_ordered(a: int, b: int)
    requires
        0 <= a <= b < 256,
        forall|i: int| 0 <= i < 255 ==> #[trigger] gamma_table()[i] <= gamma_table()[i + 1],
    ensures
        gamma_table()[a] <= gamma_table()[b],
    decreases b - a,
{
    if a < b {
        lemma_gamma_table_ordered(a, b - 1);
        assert(gamma_table()[b - 1] <= gamma_table()[b]);
    }
}

/// Gamma correction keeps black black and white white and never swaps the
/// order of two channel values: a brighter linear value is never sent as a
/// darker one.
pub proof fn lemma_gamma_is_monotone(a: u8, b: u8)
    ensures
        gamma8(0) == 0,
        gamma8(255) == 255,
        a <= b ==> gamma8(a) <= gamma8(b),
{
    lemma_gamma_table_steps();
    if a <= b {
        lemma_gamma_table_ordered(a as int, b as int);
    }
}

} // verus!
