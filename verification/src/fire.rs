use vstd::prelude::*;

verus! {

/// A pixel's colour with its place in the fire.
#[derive(Debug)]
pub struct ColorCoord<T: Copy> {
    pub c: T,
    pub x: u8,
    pub y: u8,
}

/// What chance decides for one pixel in one update of the fire: by how much
/// its heat drops, and how far the flame's right edge is pushed inwards.
#[derive(Clone, Copy, Debug)]
pub struct PixelDraw {
    pub decay: i8,
    pub right_nudge: u8,
}

/// The heat of every pixel of a fire, column by column, each heat an index
/// into the palette.
pub struct Fire<'a, T: Copy> {
    pub(crate) width: u8,
    pub(crate) height: u8,
    pub(crate) palette: &'a [T],
    pub(crate) intensity_data: Vec<Vec<u8>>,
}

/// The abstract state of a fire: its size, its palette, and the heat of each
/// pixel, indexed by column and then by row (row 0 at the top).
pub struct FireView<T> {
    pub width: u8,
    pub height: u8,
    pub palette: Seq<T>,
    pub cells: Seq<Seq<u8>>,
}

impl<'a, T: Copy> View for Fire<'a, T> {
    type V = FireView<T>;

    closed spec fn view(&self) -> FireView<T> {
        FireView {
            width: self.width,
            height: self.height,
            palette: self.palette@,
            cells: self.intensity_data@.map_values(|col: Vec<u8>| col@),
        }
    }
}

/// A well-formed fire has `width` columns of `height` heats each, and every
/// heat is one that an `i8` can hold.
pub open spec fn fire_wf<T>(v: FireView<T>) -> bool {
    &&& v.cells.len() == v.width
    &&& forall|x: int| 0 <= x < v.width ==> #[trigger] v.cells[x].len() == v.height
    &&& forall|x: int, y: int|
        0 <= x < v.width && 0 <= y < v.height ==> #[trigger] v.cells[x][y] <= i8::MAX
}

/// Every heat of the fire names a colour of its palette.
pub open spec fn heats_in_palette<T>(v: FireView<T>) -> bool {
    forall|x: int, y: int|
        0 <= x < v.width && 0 <= y < v.height ==> #[trigger] v.cells[x][y] < v.palette.len()
}

/// Columns near the sides start colder at the bottom.
pub open spec fn outside_center(width: u8, x: u8) -> bool {
    x < width / 4 || x > width - width / 4
}

/// The heat that feeds the bottom row: the last index of the palette, as an
/// `i8`.
pub open spec fn max_intensity(palette_len: int) -> int {
    ((palette_len - 1) as i8) as int
}

/// The heat below pixel `(x, y)`: for the bottom row a constant source,
/// colder outside the centre; for the other rows the pixel underneath.
pub open spec fn below_intensity<T>(v: FireView<T>, x: u8, y: u8) -> int {
    if y == v.height - 1 {
        if outside_center(v.width, x) {
            max_intensity(v.palette.len() as int) - 1
        } else {
            max_intensity(v.palette.len() as int)
        }
    } else {
        v.cells[x as int][y + 1] as int
    }
}

/// How far the flame's left edge is pushed inwards.
pub open spec fn left_nudge(height: u8, right_nudge: u8) -> int {
    if right_nudge > height {
        0
    } else {
        height - right_nudge
    }
}

/// Whether column `x` lies outside the flame's slanted edges.
pub open spec fn outside_boundaries(x: u8, height: u8, right_nudge: u8) -> bool {
    x + 11 < left_nudge(height, right_nudge) || (x > 14 && x - 14 > right_nudge)
}

/// The new heat of pixel `(x, y)`: the heat below it less the decay, never
/// below zero, and zero outside the flame's edges.
pub open spec fn pixel_intensity<T>(v: FireView<T>, x: u8, y: u8, draw: PixelDraw) -> int {
    if outside_boundaries(x, v.height, draw.right_nudge) {
        0
    } else {
        let intensity = below_intensity(v, x, y) - draw.decay;
        if intensity < 0 {
            0
        } else {
            intensity
        }
    }
}

/// The inputs on which the heat of pixel `(x, y)` is computed without
/// overflow and without an index out of bounds.
pub open spec fn pixel_update_defined<T>(v: FireView<T>, x: u8, y: u8, draw: PixelDraw) -> bool {
    &&& x < v.width
    &&& y < v.height
    &&& x + 11 <= u8::MAX
    &&& y == v.height - 1 ==> {
        &&& v.palette.len() >= 1
        &&& outside_center(v.width, x) ==> max_intensity(v.palette.len() as int) - 1 >= i8::MIN
    }
    &&& i8::MIN <= below_intensity(v, x, y) - draw.decay <= i8::MAX
}

/// The number of pixels of a row that an update recomputes: all but the
/// first and the last column.
pub open spec fn row_draws(width: u8) -> int {
    if width >= 2 {
        width - 2
    } else {
        0
    }
}

/// Whether column `x` is recomputed by an update.
pub open spec fn is_inner_column(width: u8, x: int) -> bool {
    1 <= x && x + 1 < width
}

/// An update recomputes the rows from the top down and each row from left to
/// right; this is the position of pixel `(x, y)` in that order.
pub open spec fn draw_index(width: u8, x: int, y: int) -> int {
    y * row_draws(width) + (x - 1)
}

/// The inputs on which a whole update runs without overflow and without an
/// index out of bounds: one draw for each recomputed pixel, a column to scan
/// when there is a row, and each pixel's heat defined.
pub open spec fn update_defined<T>(v: FireView<T>, draws: Seq<PixelDraw>) -> bool {
    &&& draws.len() == v.height * row_draws(v.width)
    &&& v.height > 0 ==> v.width >= 1
    &&& forall|x: int, y: int|
        is_inner_column(v.width, x) && 0 <= y < v.height ==> #[trigger] pixel_update_defined(
            v,
            x as u8,
            y as u8,
            draws[draw_index(v.width, x, y)],
        )
}

/// The heats after one update: each inner pixel takes the heat computed from
/// the heat below it before the update; the first and last columns keep
/// theirs.
pub open spec fn fire_step<T>(v: FireView<T>, draws: Seq<PixelDraw>) -> Seq<Seq<u8>> {
    Seq::new(
        v.width as nat,
        |x: int|
            Seq::new(
                v.height as nat,
                |y: int|
                    if is_inner_column(v.width, x) {
                        pixel_intensity(v, x as u8, y as u8, draws[draw_index(v.width, x, y)]) as u8
                    } else {
                        v.cells[x][y]
                    },
            ),
    )
}

/// Hands out the pixels of a fire with their colours, row by row from the
/// top, each row from left to right.
pub struct FireIterator<'a, T: Copy> {
    f: &'a Fire<'a, T>,
    curr_x: usize,
    curr_y: usize,
}

/// The `k`-th pixel that an iterator hands out: column `k % width`, row
/// `k / width`, in the colour that its heat names.
pub open spec fn pixel_color<T: Copy>(v: FireView<T>, k: int) -> ColorCoord<T> {
    let x = k % (v.width as int);
    let y = k / (v.width as int);
    ColorCoord { c: v.palette[v.cells[x][y] as int], x: x as u8, y: y as u8 }
}

/// Whether `next` runs without an index out of bounds with the iterator at
/// column `x`, row `y`: the pixel lies on the fire and its heat names a
/// colour of the palette, or every pixel has been handed out.
pub open spec fn next_defined_at<T>(v: FireView<T>, x: int, y: int) -> bool {
    ||| {
        &&& 0 <= y < v.height
        &&& 0 <= x < v.width
        &&& v.cells[x][y] < v.palette.len()
    }
    ||| y == v.height && 0 <= x < usize::MAX
}

/// What `next` returns with the iterator at column `x`, row `y`: the pixel
/// with its colour, or `None` past the last row.
pub open spec fn next_result<T: Copy>(v: FireView<T>, x: int, y: int) -> Option<ColorCoord<T>> {
    if y == v.height {
        None
    } else {
        Some(ColorCoord { c: v.palette[v.cells[x][y] as int], x: x as u8, y: y as u8 })
    }
}

/// Where the iterator moves after column `x`, row `y`: one column on, and to
/// the start of the next row after the last column.
pub open spec fn iter_step(width: u8, x: int, y: int) -> (int, int) {
    if x + 1 == width {
        (0, y + 1)
    } else {
        (x + 1, y)
    }
}

/// The column and row of an iterator after `k` calls of `next`.
pub open spec fn iter_pos_after(width: u8, k: nat) -> (int, int)
    decreases k,
{
    if k == 0 {
        (0, 0)
    } else {
        let (x, y) = iter_pos_after(width, (k - 1) as nat);
        iter_step(width, x, y)
    }
}

impl<'a, T: Copy> FireIterator<'a, T> {
    /// The fire whose pixels are handed out.
    pub closed spec fn fire(&self) -> FireView<T> {
        self.f@
    }

    /// Whether that fire is well formed.
    pub closed spec fn fire_is_wf(&self) -> bool {
        self.f.wf()
    }

    /// The column of the next pixel.
    pub closed spec fn curr_x(&self) -> int {
        self.curr_x as int
    }

    /// The row of the next pixel; the fire's height once all are handed out.
    pub closed spec fn curr_y(&self) -> int {
        self.curr_y as int
    }

    /// The states in which `next` runs without an index out of bounds.
    pub open spec fn next_defined(&self) -> bool {
        next_defined_at(self.fire(), self.curr_x(), self.curr_y())
    }

    /// The next pixel with its colour, or `None` once every pixel has been
    /// handed out.
    pub fn next(&mut self) -> (ret: Option<ColorCoord<T>>)
        requires
            old(self).fire_is_wf(),
            old(self).next_defined(),
        ensures
            final(self).fire() == old(self).fire(),
            final(self).fire_is_wf(),
            ret == next_result(old(self).fire(), old(self).curr_x(), old(self).curr_y()),
            (final(self).curr_x(), final(self).curr_y()) == iter_step(
                old(self).fire().width,
                old(self).curr_x(),
                old(self).curr_y(),
            ),
    {
        let ret = if self.curr_y == (self.f.height as usize) {
            None
        } else {
            let firstbit = &self.f.intensity_data[self.curr_x];
            let c = self.f.palette[firstbit[self.curr_y] as usize];
            Some(ColorCoord { c, x: self.curr_x as u8, y: self.curr_y as u8 })
        };

        self.curr_x += 1;
        if self.curr_x == self.f.width as usize {
            self.curr_y += 1;
            self.curr_x = 0;
        }
        ret
    }
}

impl<'a, T: Copy> Fire<'a, T> {
    /// Whether the fire is well formed.
    pub closed spec fn wf(&self) -> bool {
        &&& fire_wf(self@)
        &&& self.intensity_data@.len() == self.width
    }

    /// The view of a well-formed fire is well formed.
    pub proof fn lemma_wf_view(&self)
        requires
            self.wf(),
        ensures
            fire_wf(self@),
    {
    }

    /// A cold fire: `width` columns of `height` pixels, all of heat zero.
    pub fn new(width: u8, height: u8, palette: &'a [T]) -> (fire: Fire<'a, T>)
        ensures
            fire.wf(),
            fire_wf(fire@),
            fire@.width == width,
            fire@.height == height,
            fire@.palette == palette@,
            forall|x: int, y: int| 0 <= x < width && 0 <= y < height ==> #[trigger] fire@.cells[x][y] == 0,
    {
        let mut intensity_data: Vec<Vec<u8>> = Vec::new();
        let mut x: u8 = 0;
        while x < width
            invariant
                x <= width,
                intensity_data@.len() == x,
                forall|i: int| 0 <= i < x ==> #[trigger] intensity_data@[i]@.len() == height,
                forall|i: int, j: int|
                    0 <= i < x && 0 <= j < height ==> #[trigger] intensity_data@[i]@[j] == 0,
            decreases width - x,
        {
            let mut column: Vec<u8> = Vec::new();
            let mut y: u8 = 0;
            while y < height
                invariant
                    y <= height,
                    column@.len() == y,
                    forall|j: int| 0 <= j < y ==> #[trigger] column@[j] == 0,
                decreases height - y,
            {
                column.push(0);
                y = y + 1;
            }
            intensity_data.push(column);
            x = x + 1;
        }
        Fire { width, height, palette, intensity_data }
    }

    /// Replaces the palette; the heats stay as they are.
    pub fn set_palette(&mut self, palette: &'a [T])
        ensures
            final(self)@ == (FireView { palette: palette@, ..old(self)@ }),
            old(self).wf() ==> final(self).wf(),
    {
        self.palette = palette;
    }

    /// An iterator over the pixels of the fire, starting at the top left.
    pub fn into_iter(&'a self) -> (it: FireIterator<'a, T>)
        ensures
            it.fire() == self@,
            it.fire_is_wf() == self.wf(),
            it.curr_x() == 0,
            it.curr_y() == 0,
    {
        FireIterator { f: self, curr_x: 0, curr_y: 0 }
    }

    /// Every pixel of the fire with its colour, in the order in which
    /// `into_iter` hands them out: the `k`-th is column `k % width`, row
    /// `k / width`.
    pub fn colors(&'a self) -> (out: Vec<ColorCoord<T>>)
        requires
            self.wf(),
            heats_in_palette(self@),
            self@.height > 0 ==> self@.width > 0,
        ensures
            out@.len() == self@.width * self@.height,
            forall|k: int|
                0 <= k < self@.width * self@.height ==> #[trigger] out@[k] == pixel_color(self@, k),
    {
        let ghost v = self@;
        let ghost w = v.width as int;
        let ghost h = v.height as int;
        let mut it = self.into_iter();
        let mut out: Vec<ColorCoord<T>> = Vec::new();
        loop
            invariant_except_break
                it.fire() == v,
                w == v.width,
                h == v.height,
                it.fire_is_wf(),
                fire_wf(v),
                heats_in_palette(v),
                h > 0 ==> w > 0,
                w > 0 ==> 0 <= it.curr_x() < w,
                w == 0 ==> it.curr_x() == 0,
                0 <= it.curr_y() <= h,
                it.curr_y() == h ==> it.curr_x() == 0,
                out@.len() == it.curr_y() * w + it.curr_x(),
                forall|k: int| 0 <= k < out@.len() ==> #[trigger] out@[k] == pixel_color(v, k),
            ensures
                w == v.width,
                h == v.height,
                out@.len() == w * h,
                forall|k: int| 0 <= k < out@.len() ==> #[trigger] out@[k] == pixel_color(v, k),
            decreases h - it.curr_y(), w - it.curr_x(),
        {
            let ghost x0 = it.curr_x();
            let ghost y0 = it.curr_y();
            let ghost len0 = out@.len() as int;
            match it.next() {
                Some(c) => {
                    proof {
                        assert(len0 % w == x0 && len0 / w == y0) by {
                            vstd::arithmetic::div_mod::lemma_fundamental_div_mod_converse(
                                len0,
                                w,
                                y0,
                                x0,
                            );
                        }
                        assert(y0 * w + x0 + 1 <= h * w) by (nonlinear_arith)
                            requires
                                0 <= x0 < w,
                                0 <= y0 < h,
                        ;
                        if x0 + 1 == w {
                            assert((y0 + 1) * w == y0 * w + w) by (nonlinear_arith);
                        }
                    }
                    out.push(c);
                },
                None => {
                    assert(w * h == h * w) by (nonlinear_arith);
                    break ;
                },
            }
        }
        out
    }

    /// Whether every heat of the fire names a colour of its palette, so that
    /// the iterator can hand out every pixel.
    pub fn heats_fit_palette(&self) -> (ok: bool)
        requires
            self.wf(),
        ensures
            ok == heats_in_palette(self@),
    {
        let ghost v = self@;
        let mut x: u8 = 0;
        while x < self.width
            invariant
                self.wf(),
                v == self@,
                x <= v.width,
                forall|i: int, j: int|
                    0 <= i < x && 0 <= j < v.height ==> #[trigger] v.cells[i][j] < v.palette.len(),
            decreases v.width - x,
        {
            let mut y: u8 = 0;
            assert(self.intensity_data@[x as int]@ == v.cells[x as int]);
            while y < self.height
                invariant
                    self.wf(),
                    v == self@,
                    x < v.width,
                    y <= v.height,
                    self.intensity_data@[x as int]@ == v.cells[x as int],
                    forall|i: int, j: int|
                        0 <= i < x && 0 <= j < v.height ==> #[trigger] v.cells[i][j] < v.palette.len(),
                    forall|j: int| 0 <= j < y ==> #[trigger] v.cells[x as int][j] < v.palette.len(),
                decreases v.height - y,
            {
                let heat: u8 = self.intensity_data[x as usize][y as usize];
                if heat as usize >= self.palette.len() {
                    assert(!(v.cells[x as int][y as int] < v.palette.len()));
                    return false;
                }
                y = y + 1;
            }
            x = x + 1;
        }
        true
    }

    /// Whether the heat of pixel `(x, y)` is computed with `draw` without
    /// overflow and without an index out of bounds.
    fn pixel_update_is_defined(&self, x: u8, y: u8, draw: PixelDraw) -> (ok: bool)
        requires
            self.wf(),
            x < self@.width,
            y < self@.height,
        ensures
            ok == pixel_update_defined(self@, x, y, draw),
    {
        if x > 244 {
            return false;
        }
        let below: i16;
        if y == self.height - 1 {
            if self.palette.len() == 0 {
                return false;
            }
            let max_intensity = (self.palette.len() - 1) as i8;
            let outside_center = x < self.width / 4 || x > self.width - self.width / 4;
            if outside_center {
                if max_intensity == i8::MIN {
                    return false;
                }
                below = max_intensity as i16 - 1;
            } else {
                below = max_intensity as i16;
            }
        } else {
            assert(self.intensity_data@[x as int]@ == self@.cells[x as int]);
            let heat: u8 = self.intensity_data[x as usize][y as usize + 1];
            below = heat as i16;
        }
        let diff = below - draw.decay as i16;
        -128 <= diff && diff <= 127
    }

    /// Whether an update with `draws` runs without overflow and without an
    /// index out of bounds: the condition under which `update_fire_intensity`
    /// may be called.
    pub fn update_is_defined(&self, draws: &Vec<PixelDraw>) -> (ok: bool)
        requires
            self.wf(),
        ensures
            ok == update_defined(self@, draws@),
    {
        let ghost v = self@;
        if self.height > 0 && self.width == 0 {
            return false;
        }
        let rd: usize = if self.width >= 2 {
            (self.width - 2) as usize
        } else {
            0
        };
        assert(rd == row_draws(v.width));
        assert((self.height as usize) * rd <= 65025) by (nonlinear_arith)
            requires
                self.height <= 255,
                rd <= 255,
        ;
        if draws.len() != (self.height as usize) * rd {
            return false;
        }
        let mut k: usize = 0;
        let mut y: u8 = 0;
        while y < self.height
            invariant
                self.wf(),
                v == self@,
                rd == row_draws(v.width),
                v.height > 0 ==> v.width >= 1,
                draws@.len() == v.height * rd,
                v.height * rd <= 65025,
                y <= v.height,
                k == y * rd,
                forall|i: int, j: int|
                    is_inner_column(v.width, i) && 0 <= j < y ==> #[trigger] pixel_update_defined(
                        v,
                        i as u8,
                        j as u8,
                        draws@[draw_index(v.width, i, j)],
                    ),
            decreases v.height - y,
        {
            let mut x: u8 = 1;
            while x < self.width && x + 1 < self.width
                invariant
                    self.wf(),
                    v == self@,
                    rd == row_draws(v.width),
                    v.width >= 1,
                    draws@.len() == v.height * rd,
                    v.height * rd <= 65025,
                    y < v.height,
                    1 <= x,
                    v.width >= 2 ==> x <= v.width - 1,
                    v.width < 2 ==> x == 1,
                    k == y * rd + (x - 1),
                    forall|i: int, j: int|
                        is_inner_column(v.width, i) && 0 <= j < y ==> #[trigger] pixel_update_defined(
                            v,
                            i as u8,
                            j as u8,
                            draws@[draw_index(v.width, i, j)],
                        ),
                    forall|i: int|
                        1 <= i < x ==> #[trigger] pixel_update_defined(
                            v,
                            i as u8,
                            y,
                            draws@[draw_index(v.width, i, y as int)],
                        ),
                decreases v.width - x,
            {
                assert(k < draws@.len()) by {
                    let t = x - 1;
                    assert(0 <= t < rd);
                    assert(y * rd + t < v.height * rd) by (nonlinear_arith)
                        requires
                            0 <= t < rd,
                            0 <= y < v.height,
                    ;
                }
                assert(k == draw_index(v.width, x as int, y as int));
                if !self.pixel_update_is_defined(x, y, draws[k]) {
                    assert(is_inner_column(v.width, x as int));
                    assert(!pixel_update_defined(
                        v,
                        (x as int) as u8,
                        (y as int) as u8,
                        draws@[draw_index(v.width, x as int, y as int)],
                    ));
                    return false;
                }
                k = k + 1;
                x = x + 1;
            }
            assert(k == (y + 1) * rd) by (nonlinear_arith)
                requires
                    k == y * rd + (x - 1),
                    v.width >= 2 ==> x - 1 == rd,
                    v.width < 2 ==> rd == 0 && x == 1,
            ;
            assert forall|i: int, j: int|
                is_inner_column(v.width, i) && 0 <= j < y + 1 implies #[trigger] pixel_update_defined(
                v,
                i as u8,
                j as u8,
                draws@[draw_index(v.width, i, j)],
            ) by {
                if j == y {
                    assert(pixel_update_defined(
                        v,
                        i as u8,
                        y,
                        draws@[draw_index(v.width, i, y as int)],
                    ));
                }
            }
            y = y + 1;
        }
        true
    }

    /// Recomputes the heat of pixel `(x, y)` from the heat below it and the
    /// draw for that pixel.
    fn update_fire_pixel_intensity(&mut self, x: u8, y: u8, draw: PixelDraw)
        requires
            old(self).wf(),
            pixel_update_defined(old(self)@, x, y, draw),
        ensures
            final(self).wf(),
            final(self)@ == (FireView {
                cells: old(self)@.cells.update(
                    x as int,
                    old(self)@.cells[x as int].update(
                        y as int,
                        pixel_intensity(old(self)@, x, y, draw) as u8,
                    ),
                ),
                ..old(self)@
            }),
    {
        let ghost v = self@;
        assert(self.intensity_data@[x as int]@ == v.cells[x as int]);
        let below_pixel_fire_intensity: i8;
        if y == self.height - 1 {
            // the bottom row is fed by a constant heat, colder outside the centre
            let hotter_part: u8 = 4;
            let outside_center = x < self.width / hotter_part || x > self.width - self.width
                / hotter_part;
            let max_intensity = (self.palette.len() - 1) as i8;
            below_pixel_fire_intensity = if outside_center {
                max_intensity - 1
            } else {
                max_intensity
            };
        } else {
            let below: u8 = self.intensity_data[x as usize][y as usize + 1];
            below_pixel_fire_intensity = below as i8;
        }

        let intensity = below_pixel_fire_intensity - draw.decay;
        let intensity = if intensity < 0 {
            0
        } else {
            intensity
        };

        // the right edge is pushed inwards like this \
        let right_nudge: u8 = draw.right_nudge;
        // the left edge is pushed inwards like this /
        let left_nudge = if right_nudge > self.height {
            0
        } else {
            self.height - right_nudge
        };

        let outside_boundaries = x + 11 < left_nudge || (x > 14) && (x - 14 > right_nudge);
        let heat: u8 = if outside_boundaries {
            0
        } else {
            intensity as u8
        };
        self.intensity_data[x as usize].set(y as usize, heat);
        assert(self@.cells =~= v.cells.update(x as int, v.cells[x as int].update(y as int, heat)));
    }

    /// One step of the animation: recomputes every pixel but those of the
    /// first and last columns, the rows from the top down and each row from
    /// left to right, the k-th pixel in that order with `draws[k]`.
    ///
    /// A row is recomputed before the row below it, so each pixel reads the
    /// heat below it as it was before the update.
    pub fn update_fire_intensity(&mut self, draws: &Vec<PixelDraw>)
        requires
            old(self).wf(),
            update_defined(old(self)@, draws@),
        ensures
            final(self).wf(),
            fire_wf(final(self)@),
            final(self)@ == (FireView { cells: fire_step(old(self)@, draws@), ..old(self)@ }),
    {
        let ghost start = self@;
        let ghost rd = row_draws(start.width);
        let n = draws.len();
        let mut k: usize = 0;
        let mut y: u8 = 0;
        while y < self.height
            invariant
                self.wf(),
                update_defined(start, draws@),
                rd == row_draws(start.width),
                self@.width == start.width,
                self@.height == start.height,
                self@.palette == start.palette,
                n == draws@.len(),
                y <= start.height,
                k == y * rd,
                forall|i: int, j: int|
                    0 <= i < start.width && 0 <= j < start.height ==> #[trigger] self@.cells[i][j]
                        == (if is_inner_column(start.width, i) && j < y {
                        fire_step(start, draws@)[i][j]
                    } else {
                        start.cells[i][j]
                    }),
            decreases start.height - y,
        {
            let end = self.width - 1;
            let mut x: u8 = 1;
            assert(end >= 2 ==> rd == end - 1);
            while x < end
                invariant
                    self.wf(),
                    update_defined(start, draws@),
                    rd == row_draws(start.width),
                    self@.width == start.width,
                    self@.height == start.height,
                    self@.palette == start.palette,
                    end == start.width - 1,
                    end >= 2 ==> rd == end - 1,
                    y < start.height,
                    n == draws@.len(),
                    1 <= x,
                    end >= 1 ==> x <= end,
                    end < 2 ==> x == 1,
                    k == y * rd + (x - 1),
                    forall|i: int, j: int|
                        0 <= i < start.width && 0 <= j < start.height ==> #[trigger] self@.cells[i][j]
                            == (if is_inner_column(start.width, i) && (j < y || (j == y && i < x)) {
                            fire_step(start, draws@)[i][j]
                        } else {
                            start.cells[i][j]
                        }),
                decreases end - x,
            {
                assert(is_inner_column(start.width, x as int));
                assert(k == draw_index(start.width, x as int, y as int));
                assert(k < draws@.len()) by {
                    let t = x - 1;
                    assert(0 <= t < rd);
                    assert(y * rd + t < start.height * rd) by (nonlinear_arith)
                        requires
                            0 <= t < rd,
                            0 <= y < start.height,
                    ;
                }
                let draw = draws[k];
                assert(pixel_update_defined(
                    start,
                    (x as int) as u8,
                    (y as int) as u8,
                    draws@[draw_index(start.width, x as int, y as int)],
                ));
                assert(below_intensity(self@, x, y) == below_intensity(start, x, y));
                self.update_fire_pixel_intensity(x, y, draw);
                k = k + 1;
                x = x + 1;
            }
            assert(k == (y + 1) * rd) by (nonlinear_arith)
                requires
                    k == y * rd + (x - 1),
                    end >= 2 ==> x - 1 == rd,
                    end < 2 ==> rd == 0 && x == 1,
            ;
            y = y + 1;
        }
        assert forall|i: int| 0 <= i < start.width implies #[trigger] self@.cells[i] =~= fire_step(
            start,
            draws@,
        )[i] by {}
        assert(self@.cells =~= fire_step(start, draws@));
    }
}

/// A draw that never raises the heat of its pixel.
pub open spec fn cools(draw: PixelDraw) -> bool {
    draw.decay >= 0
}

/// The recomputed pixels' draws lie within the list of draws.
proof fn lemma_draw_index_bounds(width: u8, height: u8, x: int, y: int)
    requires
        is_inner_column(width, x),
        0 <= y < height,
    ensures
        0 <= draw_index(width, x, y) < height * row_draws(width),
{
    let rd = row_draws(width);
    assert(0 <= x - 1 < rd);
    assert(0 <= y * rd + (x - 1) < height * rd) by (nonlinear_arith)
        requires
            0 <= x - 1 < rd,
            0 <= y < height,
    ;
}

/// The first and the last column are never recomputed: an update leaves their
/// heats as they were, so on a fire that starts cold they stay dark.
pub proof fn lemma_edge_columns_stay_dark<T>(v: FireView<T>, draws: Seq<PixelDraw>)
    requires
        fire_wf(v),
        v.width >= 1,
        forall|y: int| 0 <= y < v.height ==> (#[trigger] v.cells[0][y]) == 0,
        forall|y: int| 0 <= y < v.height ==> (#[trigger] v.cells[v.width - 1][y]) == 0,
    ensures
        forall|y: int| 0 <= y < v.height ==> (#[trigger] fire_step(v, draws)[0][y]) == 0,
        forall|y: int| 0 <= y < v.height ==> (#[trigger] fire_step(v, draws)[v.width - 1][y]) == 0,
{
    assert forall|y: int| 0 <= y < v.height implies (#[trigger] fire_step(v, draws)[0][y]) == 0 by {
        assert(v.cells[0][y] == 0);
    }
    assert forall|y: int| 0 <= y < v.height implies (#[trigger] fire_step(v, draws)[v.width
        - 1][y]) == 0 by {
        assert(v.cells[v.width - 1][y] == 0);
    }
}

/// The fire climbs at most one row per update: if the rows above row `t` are
/// cold and no draw raises the heat, then after the update the rows above row
/// `t - 1` are cold. A cold fire thus shows its first flames in the bottom row
/// and gains at most one row of flames on top with each update.
pub proof fn lemma_fire_rises_one_row<T>(v: FireView<T>, draws: Seq<PixelDraw>, t: int)
    requires
        fire_wf(v),
        draws.len() == v.height * row_draws(v.width),
        1 <= t <= v.height,
        forall|x: int, y: int| 0 <= x < v.width && 0 <= y < t ==> #[trigger] v.cells[x][y] == 0,
        forall|k: int| 0 <= k < draws.len() ==> #[trigger] cools(draws[k]),
    ensures
        forall|x: int, y: int|
            0 <= x < v.width && 0 <= y < t - 1 ==> #[trigger] fire_step(v, draws)[x][y] == 0,
{
    assert forall|x: int, y: int| 0 <= x < v.width && 0 <= y < t - 1 implies #[trigger] fire_step(
        v,
        draws,
    )[x][y] == 0 by {
        if is_inner_column(v.width, x) {
            lemma_draw_index_bounds(v.width, v.height, x, y);
            assert(cools(draws[draw_index(v.width, x, y)]));
            assert(v.cells[x][y + 1] == 0);
        }
    }
}

/// With a palette of 1 to 128 colours, a fire at most 246 pixels wide, and
/// draws that never raise the heat, an update runs without overflow and
/// without an index out of bounds.
pub proof fn lemma_cooling_update_defined<T>(v: FireView<T>, draws: Seq<PixelDraw>)
    requires
        fire_wf(v),
        1 <= v.palette.len() <= 128,
        v.width <= 246,
        v.height > 0 ==> v.width >= 1,
        draws.len() == v.height * row_draws(v.width),
        forall|k: int| 0 <= k < draws.len() ==> #[trigger] cools(draws[k]),
    ensures
        update_defined(v, draws),
{
    assert(max_intensity(v.palette.len() as int) == v.palette.len() - 1);
    assert forall|x: int, y: int| is_inner_column(v.width, x) && 0 <= y < v.height implies #[trigger] pixel_update_defined(
        v,
        x as u8,
        y as u8,
        draws[draw_index(v.width, x, y)],
    ) by {
        lemma_draw_index_bounds(v.width, v.height, x, y);
        assert(cools(draws[draw_index(v.width, x, y)]));
    }
}

/// With a palette of 1 to 128 colours and draws that never raise the heat,
/// every heat names a colour of the palette after an update if it did before:
/// the fire never burns hotter than its hottest colour.
pub proof fn lemma_heats_stay_in_palette<T>(v: FireView<T>, draws: Seq<PixelDraw>)
    requires
        fire_wf(v),
        1 <= v.palette.len() <= 128,
        update_defined(v, draws),
        heats_in_palette(v),
        forall|k: int| 0 <= k < draws.len() ==> #[trigger] cools(draws[k]),
    ensures
        heats_in_palette(FireView { cells: fire_step(v, draws), ..v }),
{
    assert(max_intensity(v.palette.len() as int) == v.palette.len() - 1);
    assert forall|x: int, y: int| 0 <= x < v.width && 0 <= y < v.height implies #[trigger] fire_step(
        v,
        draws,
    )[x][y] < v.palette.len() by {
        if is_inner_column(v.width, x) {
            lemma_draw_index_bounds(v.width, v.height, x, y);
            assert(cools(draws[draw_index(v.width, x, y)]));
            assert(pixel_update_defined(
                v,
                x as u8,
                y as u8,
                draws[draw_index(v.width, x, y)],
            ));
        }
    }
}

/// An iterator over a fire `width` wide runs through the positions row by
/// row: after `k` calls of `next` it is at column `k % width`, row
/// `k / width`. So the `(k + 1)`-th call hands out the `k`-th pixel while
/// `k < width * height`, gives `None` for the next `width` calls, and the call
/// after those would index past the last row: the iterator is not fused. The
/// results depend on the fire and on `k` alone, so two iterators over the
/// same fire hand out the same pixels. (An empty fire, `width` 0, stays on
/// row 0 and gives `None` on every call.)
pub proof fn lemma_iterator_sequence<T: Copy>(v: FireView<T>, k: nat)
    requires
        fire_wf(v),
        heats_in_palette(v),
        v.width >= 1 || v.height == 0,
    ensures
        v.width >= 1 ==> iter_pos_after(v.width, k) == (k as int % v.width as int, k as int
            / v.width as int),
        v.width == 0 ==> iter_pos_after(v.width, k) == (k as int, 0int),
        v.width >= 1 && k < v.width * v.height ==> {
            let (x, y) = iter_pos_after(v.width, k);
            &&& next_defined_at(v, x, y)
            &&& next_result(v, x, y) == Some(pixel_color(v, k as int))
        },
        v.width >= 1 && v.width * v.height <= k < v.width * (v.height + 1) ==> {
            let (x, y) = iter_pos_after(v.width, k);
            &&& next_defined_at(v, x, y)
            &&& next_result(v, x, y) == None::<ColorCoord<T>>
        },
        v.width >= 1 && k == v.width * (v.height + 1) ==> {
            let (x, y) = iter_pos_after(v.width, k);
            !next_defined_at(v, x, y)
        },
        v.width == 0 && k < usize::MAX ==> {
            let (x, y) = iter_pos_after(v.width, k);
            &&& next_defined_at(v, x, y)
            &&& next_result(v, x, y) == None::<ColorCoord<T>>
        },
    decreases k,
{
    let w = v.width as int;
    let h = v.height as int;
    let kk = k as int;
    if k > 0 {
        lemma_iterator_sequence(v, (k - 1) as nat);
        if w >= 1 {
            let j = kk - 1;
            vstd::arithmetic::div_mod::lemma_fundamental_div_mod(j, w);
            if j % w + 1 == w {
                assert(kk == (j / w + 1) * w + 0) by (nonlinear_arith)
                    requires
                        j == w * (j / w) + j % w,
                        j % w + 1 == w,
                        kk == j + 1,
                ;
                vstd::arithmetic::div_mod::lemma_fundamental_div_mod_converse(kk, w, j / w + 1, 0);
            } else {
                vstd::arithmetic::div_mod::lemma_fundamental_div_mod_converse(
                    kk,
                    w,
                    j / w,
                    j % w + 1,
                );
            }
        }
    }
    if w >= 1 {
        vstd::arithmetic::div_mod::lemma_fundamental_div_mod(kk, w);
        let (x, y) = (kk % w, kk / w);
        assert(w * (h + 1) == w * h + w) by (nonlinear_arith);
        if kk < w * h {
            assert(y < h) by (nonlinear_arith)
                requires
                    kk == w * y + x,
                    0 <= x < w,
                    kk < w * h,
            ;
        } else if kk < w * (h + 1) {
            assert(y == h) by (nonlinear_arith)
                requires
                    kk == w * y + x,
                    0 <= x < w,
                    w * h <= kk < w * (h + 1),
            ;
            assert(x < usize::MAX);
        } else if kk == w * (h + 1) {
            assert(y == h + 1) by (nonlinear_arith)
                requires
                    kk == w * y + x,
                    0 <= x < w,
                    kk == w * (h + 1),
            ;
        }
    }
}

/// The fire after `k` updates, the `i`-th with `draws[i]`.
pub open spec fn fire_after<T>(v: FireView<T>, draws: Seq<Seq<PixelDraw>>, k: nat) -> FireView<T>
    decreases k,
{
    if k == 0 {
        v
    } else {
        let prev = fire_after(v, draws, (k - 1) as nat);
        FireView { cells: fire_step(prev, draws[k - 1]), ..prev }
    }
}

/// An update that is defined keeps the fire well formed.
pub proof fn lemma_step_wf<T>(v: FireView<T>, draws: Seq<PixelDraw>)
    requires
        fire_wf(v),
        update_defined(v, draws),
    ensures
        fire_wf(FireView { cells: fire_step(v, draws), ..v }),
{
    let n = FireView { cells: fire_step(v, draws), ..v };
    assert forall|x: int, y: int| 0 <= x < v.width && 0 <= y < v.height implies #[trigger] n.cells[x][y]
        <= i8::MAX by {
        if is_inner_column(v.width, x) {
            lemma_draw_index_bounds(v.width, v.height, x, y);
            assert(pixel_update_defined(v, x as u8, y as u8, draws[draw_index(v.width, x, y)]));
        }
    }
}

/// A cold fire gains at most one row of flames on top with each update: with
/// a palette of 1 to 128 colours, a fire at most 246 pixels wide and draws
/// that never raise the heat, after `k` updates every pixel more than `k` rows
/// above the bottom is still cold; every update is defined, the fire stays
/// well formed, and every heat names a colour of the palette.
pub proof fn lemma_fire_rises_row_by_row<T>(v: FireView<T>, draws: Seq<Seq<PixelDraw>>, k: nat)
    requires
        fire_wf(v),
        1 <= v.palette.len() <= 128,
        v.width <= 246,
        v.height > 0 ==> v.width >= 1,
        forall|x: int, y: int| 0 <= x < v.width && 0 <= y < v.height ==> #[trigger] v.cells[x][y] == 0,
        k <= draws.len(),
        forall|i: int| 0 <= i < draws.len() ==> #[trigger] draws[i].len() == v.height * row_draws(v.width),
        forall|i: int, j: int|
            0 <= i < draws.len() && 0 <= j < draws[i].len() ==> #[trigger] cools(draws[i][j]),
    ensures
        fire_wf(fire_after(v, draws, k)),
        heats_in_palette(fire_after(v, draws, k)),
        fire_after(v, draws, k).width == v.width,
        fire_after(v, draws, k).height == v.height,
        fire_after(v, draws, k).palette == v.palette,
        k < draws.len() ==> update_defined(fire_after(v, draws, k), draws[k as int]),
        forall|x: int, y: int|
            0 <= x < v.width && 0 <= y && y + k < v.height ==> #[trigger] fire_after(
                v,
                draws,
                k,
            ).cells[x][y] == 0,
    decreases k,
{
    let cur = fire_after(v, draws, k);
    if k > 0 {
        let k1 = (k - 1) as nat;
        lemma_fire_rises_row_by_row(v, draws, k1);
        let prev = fire_after(v, draws, k1);
        let d = draws[k1 as int];
        assert(forall|j: int| 0 <= j < d.len() ==> #[trigger] cools(d[j])) by {
            assert forall|j: int| 0 <= j < d.len() implies #[trigger] cools(d[j]) by {
                assert(cools(draws[k1 as int][j]));
            }
        }
        lemma_step_wf(prev, d);
        lemma_heats_stay_in_palette(prev, d);
        if k1 < v.height {
            lemma_fire_rises_one_row(prev, d, v.height - k1);
        }
    } else {
        assert(heats_in_palette(v));
    }
    if k < draws.len() {
        let d = draws[k as int];
        assert(forall|j: int| 0 <= j < d.len() ==> #[trigger] cools(d[j])) by {
            assert forall|j: int| 0 <= j < d.len() implies #[trigger] cools(d[j]) by {
                assert(cools(draws[k as int][j]));
            }
        }
        lemma_cooling_update_defined(cur, d);
    }
}

/// The heat that an update gives an inner pixel `(x, y)`, in terms of the
/// fire before the update and the pixel's draw `d`. The pixel is cut to zero
/// beyond the flame's left edge (`x + 11` below `height - d.right_nudge`) or
/// beyond its right edge (`x` more than `14 + d.right_nudge`). Otherwise it
/// takes the heat below it less the decay, never below zero, where the
/// bottom row is fed by the palette's last index, one less in the columns
/// outside the centre (the first and last quarter of the width). In
/// particular, a pixel right of column 14 that is within
/// `d.right_nudge` of it and right of the left edge is not cut.
pub proof fn lemma_update_heat_rule<T>(v: FireView<T>, draws: Seq<PixelDraw>, x: int, y: int)
    requires
        fire_wf(v),
        update_defined(v, draws),
        is_inner_column(v.width, x),
        0 <= y < v.height,
    ensures
        ({
            let d = draws[draw_index(v.width, x, y)];
            let h = v.height as int;
            let w = v.width as int;
            let rn = d.right_nudge as int;
            let left = if rn > h {
                0
            } else {
                h - rn
            };
            let cut = x + 11 < left || (x > 14 && x - 14 > rn);
            let hottest = ((v.palette.len() - 1) as i8) as int;
            let below = if y + 1 == h {
                if x < w / 4 || x > w - w / 4 {
                    hottest - 1
                } else {
                    hottest
                }
            } else {
                v.cells[x][y + 1] as int
            };
            let kept = if below - d.decay < 0 {
                0
            } else {
                below - d.decay
            };
            &&& fire_step(v, draws)[x][y] as int == (if cut {
                0
            } else {
                kept
            })
            &&& x > 14 && x - 14 <= rn && x + 11 >= left ==> fire_step(v, draws)[x][y] as int
                == kept
        }),
{
    lemma_draw_index_bounds(v.width, v.height, x, y);
    assert(pixel_update_defined(v, x as u8, y as u8, draws[draw_index(v.width, x, y)]));
}

/// The pixels are handed out row by row, each exactly once: for every pixel
/// `(x, y)` of the fire, the one at position `y * width + x` is that pixel in
/// the colour of its heat, and two positions below `width * height` never
/// give the same pixel.
pub proof fn lemma_each_pixel_once<T: Copy>(v: FireView<T>)
    ensures
        forall|x: int, y: int|
            0 <= x < v.width && 0 <= y < v.height ==> #[trigger] pixel_color(
                v,
                y * v.width + x,
            ) == (ColorCoord { c: v.palette[v.cells[x][y] as int], x: x as u8, y: y as u8 }),
        forall|k1: int, k2: int|
            0 <= k1 < k2 < v.width * v.height ==> {
                let p1 = #[trigger] pixel_color(v, k1);
                let p2 = #[trigger] pixel_color(v, k2);
                p1.x != p2.x || p1.y != p2.y
            },
{
    let w = v.width as int;
    assert forall|x: int, y: int| 0 <= x < v.width && 0 <= y < v.height implies #[trigger] pixel_color(
        v,
        y * v.width + x,
    ) == (ColorCoord { c: v.palette[v.cells[x][y] as int], x: x as u8, y: y as u8 }) by {
        vstd::arithmetic::div_mod::lemma_fundamental_div_mod_converse(y * w + x, w, y, x);
    }
    assert forall|k1: int, k2: int| 0 <= k1 < k2 < v.width * v.height implies {
        let p1 = #[trigger] pixel_color(v, k1);
        let p2 = #[trigger] pixel_color(v, k2);
        p1.x != p2.x || p1.y != p2.y
    } by {
        assert(w > 0) by (nonlinear_arith)
            requires
                0 <= k1 < k2 < w * v.height,
                w >= 0,
        ;
        vstd::arithmetic::div_mod::lemma_fundamental_div_mod(k1, w);
        vstd::arithmetic::div_mod::lemma_fundamental_div_mod(k2, w);
        assert(k1 / w < 256 && k2 / w < 256) by (nonlinear_arith)
            requires
                k1 == w * (k1 / w) + k1 % w,
                k2 == w * (k2 / w) + k2 % w,
                0 <= k1 % w < w,
                0 <= k2 % w < w,
                0 <= k1 < k2 < w * v.height,
                v.height <= 255,
        ;
    }
}

} // verus!
