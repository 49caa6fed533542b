use vstd::prelude::*;

verus! {

/// Width of one LED panel, in pixels.
pub const PANEL_W: u16 = 8;

/// Height of one LED panel, in pixels.
pub const PANEL_H: u16 = 32;

/// The panel that column `x` lies on.
pub open spec fn panel_of(x: int) -> int {
    x / (PANEL_W as int)
}

/// Panels with an even number keep their rows top to bottom; the others are
/// mounted upside down.
pub open spec fn panel_is_updown(x: int) -> bool {
    panel_of(x) % 2 == 0
}

/// The position on the LED chain of the pixel at column `x`, row `y`.
///
/// The panels stand side by side, each `PANEL_W` wide and `PANEL_H` tall,
/// and inside a panel the chain runs row by row, turning at each end:
///
/// ```text
/// | 00 01 02 03 04 |
/// | 09 08 07 06 05 |
/// | 10 11 12 13 14 |
/// ```
pub open spec fn pixmap_spec(x: int, y: int) -> int {
    let panel = panel_of(x);
    let x_in_panel = x % (PANEL_W as int);
    let outrow = if panel_is_updown(x) { y } else { PANEL_H - y - 1 };
    let outcol = if y % 2 == 0 { PANEL_W - x_in_panel - 1 } else { x_in_panel };
    panel * (PANEL_W as int) * (PANEL_H as int) + outrow * (PANEL_W as int) + outcol
}

/// The inputs on which `pixmap` computes its result without overflow: a row
/// of an upside-down panel lies on the panel, and the position fits in a `u16`.
pub open spec fn pixmap_defined(x: int, y: int) -> bool {
    &&& !panel_is_updown(x) ==> y < PANEL_H
    &&& pixmap_spec(x, y) <= u16::MAX
}

/// Maps a matrix coordinate to the index of its LED on the chain.
pub fn pixmap(x: u16, y: u16) -> (idx: u16)
    requires
        pixmap_defined(x as int, y as int),
    ensures
        idx == pixmap_spec(x as int, y as int),
{
    let panel = x / PANEL_W;
    let x_in_panel = x % PANEL_W;
    let is_updown = (panel % 2) == 0;

    let outrow = if is_updown { y } else { PANEL_H - y - 1 };
    let outcol = if is_updown {
        if (y % 2) == 0 {
            PANEL_W - x_in_panel - 1
        } else {
            x_in_panel
        }
    } else {
        if (y % 2) == 0 {
            PANEL_W - x_in_panel - 1
        } else {
            x_in_panel
        }
    };

    (panel * PANEL_W * PANEL_H) + outrow * PANEL_W + outcol
}


/// The pixel whose LED sits at position `i` of the chain.
pub open spec fn led_pixel(i: int) -> (int, int) {
    let panel = i / ((PANEL_W * PANEL_H) as int);
    let outrow = (i % ((PANEL_W * PANEL_H) as int)) / (PANEL_W as int);
    let outcol = i % (PANEL_W as int);
    let y = if panel % 2 == 0 { outrow } else { PANEL_H - outrow - 1 };
    let x_in_panel = if y % 2 == 0 { PANEL_W - outcol - 1 } else { outcol };
    (panel * (PANEL_W as int) + x_in_panel, y)
}

/// Every pixel of the panels' rows is found again from the position of its
/// LED: `led_pixel` undoes `pixmap`.
pub proof fn lemma_led_pixel_inverts(x: int, y: int)
    requires
        0 <= x,
        0 <= y < PANEL_H,
    ensures
        led_pixel(pixmap_spec(x, y)) == (x, y),
{
    let panel = x / 8;
    let xin = x % 8;
    let outrow = if panel % 2 == 0 { y } else { 31 - y };
    let outcol = if y % 2 == 0 { 7 - xin } else { xin };
    let i = panel * 256 + outrow * 8 + outcol;
    assert(0 <= outrow * 8 + outcol < 256);
    assert(i / 256 == panel && i % 256 == outrow * 8 + outcol) by {
        vstd::arithmetic::div_mod::lemma_fundamental_div_mod_converse(i, 256, panel, outrow * 8 + outcol);
    }
    assert((outrow * 8 + outcol) / 8 == outrow && (outrow * 8 + outcol) % 8 == outcol) by {
        vstd::arithmetic::div_mod::lemma_fundamental_div_mod_converse(outrow * 8 + outcol, 8, outrow, outcol);
    }
    assert(i % 8 == outcol) by {
        vstd::arithmetic::div_mod::lemma_fundamental_div_mod_converse(i, 8, panel * 32 + outrow, outcol);
    }
    assert(x == panel * 8 + xin);
}

/// The LED at position `i` of the chain lights the pixel that `pixmap` sends
/// there.
proof fn lemma_pixmap_of_led_pixel(i: int)
    requires
        0 <= i,
    ensures
        led_pixel(i).0 >= 0,
        0 <= led_pixel(i).1 < PANEL_H,
        panel_of(led_pixel(i).0) == i / ((PANEL_W * PANEL_H) as int),
        pixmap_spec(led_pixel(i).0, led_pixel(i).1) == i,
{
    let panel = i / 256;
    let outrow = (i % 256) / 8;
    let outcol = i % 8;
    let y = if panel % 2 == 0 { outrow } else { 31 - outrow };
    let xin = if y % 2 == 0 { 7 - outcol } else { outcol };
    let x = panel * 8 + xin;
    assert(i == panel * 256 + (i % 256));
    assert(i % 256 == outrow * 8 + (i % 256) % 8);
    assert((i % 256) % 8 == outcol) by {
        vstd::arithmetic::div_mod::lemma_mod_mod(i, 8, 32);
    }
    assert(x / 8 == panel && x % 8 == xin) by {
        vstd::arithmetic::div_mod::lemma_fundamental_div_mod_converse(x, 8, panel, xin);
    }
}

/// Distinct pixels of the panel rows light distinct LEDs: `pixmap` is
/// one-to-one on every input whose row lies on the panels.
pub proof fn lemma_pixmap_injective(x1: u16, y1: u16, x2: u16, y2: u16)
    requires
        y1 < PANEL_H,
        y2 < PANEL_H,
        pixmap_spec(x1 as int, y1 as int) == pixmap_spec(x2 as int, y2 as int),
    ensures
        x1 == x2,
        y1 == y2,
{
    lemma_led_pixel_inverts(x1 as int, y1 as int);
    lemma_led_pixel_inverts(x2 as int, y2 as int);
}

/// The matrix of `panels` panels, each `PANEL_W` wide and `PANEL_H` tall, is
/// mapped onto the first `panels * PANEL_W * PANEL_H` LEDs of the chain, one
/// LED per pixel: every pixel lands in that range, and every LED of the range
/// lights one pixel of the matrix.
pub proof fn lemma_pixmap_covers_matrix(panels: u16)
    ensures
        forall|x: u16, y: u16|
            x < panels * PANEL_W && y < PANEL_H ==> 0 <= #[trigger] pixmap_spec(x as int, y as int)
                < panels * PANEL_W * PANEL_H,
        forall|i: int|
            0 <= i < panels * PANEL_W * PANEL_H ==> {
                let (x, y) = #[trigger] led_pixel(i);
                &&& 0 <= x < panels * PANEL_W
                &&& 0 <= y < PANEL_H
                &&& pixmap_spec(x, y) == i
            },
{
    assert forall|x: u16, y: u16| x < panels * PANEL_W && y < PANEL_H implies 0 <= #[trigger] pixmap_spec(
        x as int,
        y as int,
    ) < panels * PANEL_W * PANEL_H by {
        let panel = x / 8;
        assert(panel < panels);
        assert(panel + 1 <= panels);
        assert((panel + 1) * 256 <= panels * 256) by (nonlinear_arith)
            requires panel + 1 <= panels;
    }
    assert forall|i: int| 0 <= i < panels * PANEL_W * PANEL_H implies {
        let (x, y) = #[trigger] led_pixel(i);
        &&& 0 <= x < panels * PANEL_W
        &&& 0 <= y < PANEL_H
        &&& pixmap_spec(x, y) == i
    } by {
        lemma_pixmap_of_led_pixel(i);
        let panel = i / 256;
        let r = i % 256;
        assert(i == panel * 256 + r && 0 <= r < 256);
        assert(panel < panels) by (nonlinear_arith)
            requires
                i == panel * 256 + r,
                0 <= r < 256,
                i < panels * 256,
        ;
        assert((panel + 1) * 8 <= panels * 8);
    }
}

/// The chain runs through each panel as one continuous zig-zag path, and on
/// from an even-numbered panel into the next: the LEDs at positions `i` and
/// `i + 1` light pixels that are next to each other, in the same row or in the
/// same column. (From the last LED of an odd-numbered panel the chain jumps to
/// the far column of the next panel.)
pub proof fn lemma_chain_is_continuous(i: int)
    requires
        0 <= i,
        !(i % ((PANEL_W * PANEL_H) as int) == (PANEL_W * PANEL_H) - 1 && (i / ((PANEL_W
            * PANEL_H) as int)) % 2 == 1),
    ensures
        ({
            let (x1, y1) = led_pixel(i);
            let (x2, y2) = led_pixel(i + 1);
            ||| x1 == x2 && (y2 == y1 + 1 || y2 == y1 - 1)
            ||| y1 == y2 && (x2 == x1 + 1 || x2 == x1 - 1)
        }),
{
    let j = i + 1;
    let m = i % 256;
    let r = m / 8;
    let c = m % 8;
    assert(m == r * 8 + c);
    assert(i % 8 == c) by {
        vstd::arithmetic::div_mod::lemma_mod_mod(i, 8, 32);
    }
    assert(j % 8 == (j % 256) % 8) by {
        vstd::arithmetic::div_mod::lemma_mod_mod(j, 8, 32);
    }
    if m == 255 {
        assert(j / 256 == i / 256 + 1 && j % 256 == 0) by {
            vstd::arithmetic::div_mod::lemma_fundamental_div_mod_converse(j, 256, i / 256 + 1, 0);
        }
        assert(r == 31 && c == 7);
        let p = i / 256;
        assert(p % 2 == 0);
        assert((p + 1) % 2 == 1);
        assert(led_pixel(i) == (p * 8 + 7, 31int));
        assert(led_pixel(j) == (p * 8 + 8, 31int));
    } else if c == 7 {
        assert(j / 256 == i / 256 && j % 256 == m + 1) by {
            vstd::arithmetic::div_mod::lemma_fundamental_div_mod_converse(j, 256, i / 256, m + 1);
        }
        assert((m + 1) / 8 == r + 1 && (m + 1) % 8 == 0) by {
            vstd::arithmetic::div_mod::lemma_fundamental_div_mod_converse(m + 1, 8, r + 1, 0);
        }
    } else {
        assert(j / 256 == i / 256 && j % 256 == m + 1) by {
            vstd::arithmetic::div_mod::lemma_fundamental_div_mod_converse(j, 256, i / 256, m + 1);
        }
        assert((m + 1) / 8 == r && (m + 1) % 8 == c + 1) by {
            vstd::arithmetic::div_mod::lemma_fundamental_div_mod_converse(m + 1, 8, r, c + 1);
        }
    }
}

} // verus!
