//! Screen images and reading the playfield and the preview of next pieces from them.
use vstd::prelude::*;
use crate::colr::{color_entry, get_color, is_black, spec_color_entry, spec_color_of, Rgba, TetrColr};
use crate::constants::{TOP_LINE, XCNT, YCNT};
use crate::des::bits_view;

verus! {

/// A screen image: `width` by `height` pixels stored row by row.
pub struct Image {
    width: u32,
    height: u32,
    pixels: Vec<Rgba>,
}

impl Image {
    #[verifier::type_invariant]
    spec fn inv(self) -> bool {
        self.pixels@.len() == self.width * self.height
    }

    /// Width in pixels.
    pub closed spec fn spec_width(&self) -> nat {
        self.width as nat
    }

    /// Height in pixels.
    pub closed spec fn spec_height(&self) -> nat {
        self.height as nat
    }

    /// The pixel in column `x` and row `y`.
    pub closed spec fn px(&self, x: int, y: int) -> Rgba {
        self.pixels@[y * self.width + x]
    }

    /// The pixels row by row.
    pub closed spec fn spec_pixels(&self) -> Seq<Rgba> {
        self.pixels@
    }

    /// Pixel `(x, y)` lies in the image.
    pub open spec fn in_bounds(&self, x: int, y: int) -> bool {
        0 <= x < self.spec_width() && 0 <= y < self.spec_height()
    }


    /// Builds an image from its pixels row by row; `None` when their number is not
    /// `width * height`.
    pub fn new(width: u32, height: u32, pixels: Vec<Rgba>) -> (r: Option<Image>)
        ensures
            r is Some <==> pixels@.len() == width * height,
            r matches Some(img) ==> img.spec_width() == width && img.spec_height() == height
                && img.spec_pixels() == pixels@,
            r matches Some(img) ==> forall|x: int, y: int| img.in_bounds(x, y) ==> #[trigger] img.px(x, y)
                == pixels@[y * width + x],
    {
        assert((width as int) * (height as int) <= u64::MAX) by (nonlinear_arith)
            requires
                width <= u32::MAX,
                height <= u32::MAX,
        ;
        let n: u64 = width as u64 * height as u64;
        if pixels.len() as u64 == n {
            Some(Image { width, height, pixels })
        } else {
            None
        }
    }

    /// Width in pixels.
    pub fn width(&self) -> (r: u32)
        ensures
            r == self.spec_width(),
    {
        self.width
    }

    /// Height in pixels.
    pub fn height(&self) -> (r: u32)
        ensures
            r == self.spec_height(),
    {
        self.height
    }

    /// The pixels row by row.
    pub fn pixels(&self) -> (r: &Vec<Rgba>)
        ensures
            r@ == self.spec_pixels(),
    {
        &self.pixels
    }

    /// The pixel in column `x` and row `y`, which must lie in the image.
    pub fn get_pixel(&self, x: u32, y: u32) -> (r: Rgba)
        requires
            self.in_bounds(x as int, y as int),
        ensures
            r == self.px(x as int, y as int),
    {
        proof {
            use_type_invariant(self);
            lemma_index(x as int, y as int, self.width as int, self.height as int);
        }
        let n = self.pixels.len();
        assert(y as int * self.width as int + x as int <= n);
        self.pixels[y as usize * self.width as usize + x as usize]
    }

    /// The pixel in column `x` and row `y`, or `None` when it lies outside the image.
    pub fn get_pixel_checked(&self, x: u32, y: u32) -> (r: Option<Rgba>)
        ensures
            r is Some <==> self.in_bounds(x as int, y as int),
            r matches Some(p) ==> p == self.px(x as int, y as int),
    {
        if x < self.width && y < self.height {
            Some(self.get_pixel(x, y))
        } else {
            None
        }
    }

    /// Sets the pixel in column `x` and row `y`, which must lie in the image.
    pub fn put_pixel(&mut self, x: u32, y: u32, p: Rgba)
        requires
            old(self).in_bounds(x as int, y as int),
        ensures
            final(self).spec_width() == old(self).spec_width(),
            final(self).spec_height() == old(self).spec_height(),
            forall|a: int, b: int| final(self).in_bounds(a, b) ==> #[trigger] final(self).px(a, b)
                == if a == x && b == y { p } else { old(self).px(a, b) },
    {
        proof {
            use_type_invariant(&*self);
            lemma_index(x as int, y as int, self.width as int, self.height as int);
        }
        let n = self.pixels.len();
        assert(y as int * self.width as int + x as int <= n);
        let i = y as usize * self.width as usize + x as usize;
        let mut tmp = Image { width: 0, height: 0, pixels: Vec::new() };
        std::mem::swap(self, &mut tmp);
        let Image { width, height, pixels } = tmp;
        let mut pixels = pixels;
        pixels.set(i, p);
        *self = Image { width, height, pixels };
        proof {
            let w = self.width as int;
            assert forall|a: int, b: int| self.in_bounds(a, b) implies #[trigger] self.px(a, b)
                == if a == x && b == y { p } else { old(self).px(a, b) } by {
                lemma_index(a, b, w, self.height as int);
                assert(self.px(a, b) == self.pixels@[b * w + a]);
                assert(old(self).px(a, b) == old(self).pixels@[b * w + a]);
                if b * w + a == y * w + x {
                    assert(a == x && b == y) by (nonlinear_arith)
                        requires
                            b * w + a == y * w + x,
                            0 <= a < w,
                            0 <= x < w,
                            0 <= b,
                            0 <= y,
                    ;
                }
            }
        }
    }
}

/// Row-major positions of the pixels of a `w` by `h` image lie within it.
proof fn lemma_index(x: int, y: int, w: int, h: int)
    requires
        0 <= x < w,
        0 <= y < h,
    ensures
        0 <= y * w + x < w * h,
{
    assert(0 <= y * w + x < w * h) by (nonlinear_arith)
        requires
            0 <= x < w,
            0 <= y < h,
    ;
}

/// Two pixels agree in all four channels.
pub open spec fn same_px(a: Rgba, b: Rgba) -> bool {
    a.0@ == b.0@
}

/// Whether two pixels agree in all four channels.
pub fn same_pixel(a: &Rgba, b: &Rgba) -> (r: bool)
    ensures
        r == same_px(*a, *b),
{
    let r = a.0[0] == b.0[0] && a.0[1] == b.0[1] && a.0[2] == b.0[2] && a.0[3] == b.0[3];
    proof {
        if r {
            assert(a.0@ =~= b.0@);
        }
    }
    r
}

/// Half the side of the marks drawn on an image.
pub const LEN: u32 = 6;

/// Pixel `(a, b)` lies in the square of half side `LEN` centred on `(x, y)`.
pub open spec fn in_square(a: int, b: int, x: int, y: int) -> bool {
    x - LEN <= a <= x + LEN && y - LEN <= b <= y + LEN
}

/// Paints with `p` the square of half side `LEN` centred on `(x, y)`, which must lie in the
/// image.
pub fn draw_rect(img: &mut Image, x: u32, y: u32, p: Rgba)
    requires
        LEN <= x,
        LEN <= y,
        old(img).in_bounds(x + LEN, y + LEN),
    ensures
        final(img).spec_width() == old(img).spec_width(),
        final(img).spec_height() == old(img).spec_height(),
        forall|a: int, b: int| final(img).in_bounds(a, b) ==> #[trigger] final(img).px(a, b)
            == if in_square(a, b, x as int, y as int) { p } else { old(img).px(a, b) },
{
    let ghost orig = *img;
    let mut i: u32 = x - LEN;
    while i <= x + LEN
        invariant
            LEN <= x,
            LEN <= y,
            x - LEN <= i <= x + LEN + 1,
            orig.in_bounds(x + LEN, y + LEN),
            img.spec_width() == orig.spec_width(),
            img.spec_height() == orig.spec_height(),
            forall|a: int, b: int| img.in_bounds(a, b) ==> #[trigger] img.px(a, b)
                == if x - LEN <= a < i && y - LEN <= b <= y + LEN { p } else { orig.px(a, b) },
        decreases x + LEN + 1 - i,
    {
        let mut j: u32 = y - LEN;
        while j <= y + LEN
            invariant
                LEN <= x,
                LEN <= y,
                x - LEN <= i <= x + LEN,
                y - LEN <= j <= y + LEN + 1,
                orig.in_bounds(x + LEN, y + LEN),
                img.spec_width() == orig.spec_width(),
                img.spec_height() == orig.spec_height(),
                forall|a: int, b: int| img.in_bounds(a, b) ==> #[trigger] img.px(a, b)
                    == if (x - LEN <= a < i && y - LEN <= b <= y + LEN) || (a == i && y - LEN <= b < j) { p } else { orig.px(a, b) },
            decreases y + LEN + 1 - j,
        {
            img.put_pixel(i, j, p);
            j = j + 1;
        }
        i = i + 1;
    }
}

/// Paints with `p`, in each column listed in `xs`, the rows within `LEN` of row `y`.
pub fn draw_x_line(img: &mut Image, xs: &Vec<u32>, y: u32, p: Rgba)
    requires
        xs@.len() > 0 ==> LEN <= y && y + LEN < old(img).spec_height(),
        forall|t: int| 0 <= t < xs@.len() ==> #[trigger] xs@[t] < old(img).spec_width(),
    ensures
        final(img).spec_width() == old(img).spec_width(),
        final(img).spec_height() == old(img).spec_height(),
        forall|a: int, b: int| final(img).in_bounds(a, b) ==> #[trigger] final(img).px(a, b)
            == if xs@.contains(a as u32) && y - LEN <= b <= y + LEN { p } else { old(img).px(a, b) },
{
    let ghost orig = *img;
    let mut t: usize = 0;
    while t < xs.len()
        invariant
            xs@.len() > 0 ==> LEN <= y && y + LEN < orig.spec_height(),
            forall|u: int| 0 <= u < xs@.len() ==> #[trigger] xs@[u] < orig.spec_width(),
            t <= xs@.len(),
            img.spec_width() == orig.spec_width(),
            img.spec_height() == orig.spec_height(),
            forall|a: int, b: int| img.in_bounds(a, b) ==> #[trigger] img.px(a, b)
                == if xs@.take(t as int).contains(a as u32) && y - LEN <= b <= y + LEN { p } else { orig.px(a, b) },
        decreases xs@.len() - t,
    {
        let i = xs[t];
        let ghost before = *img;
        let mut j: u32 = y - LEN;
        while j <= y + LEN
            invariant
                LEN <= y,
                y - LEN <= j <= y + LEN + 1,
                i < orig.spec_width(),
                y + LEN < orig.spec_height(),
                img.spec_width() == orig.spec_width(),
                img.spec_height() == orig.spec_height(),
                forall|a: int, b: int| img.in_bounds(a, b) ==> #[trigger] img.px(a, b)
                    == if a == i && y - LEN <= b < j { p } else { before.px(a, b) },
            decreases y + LEN + 1 - j,
        {
            img.put_pixel(i, j, p);
            j = j + 1;
        }
        proof {
            assert forall|a: int, b: int| img.in_bounds(a, b) implies #[trigger] img.px(a, b)
                == if xs@.take(t + 1).contains(a as u32) && y - LEN <= b <= y + LEN { p } else { orig.px(a, b) } by {
                assert(before.px(a, b) == if xs@.take(t as int).contains(a as u32) && y - LEN <= b <= y + LEN { p } else { orig.px(a, b) });
                assert(xs@.take(t + 1) == xs@.take(t as int).push(i));
                if a == i {
                    assert(xs@.take(t + 1)[t as int] == i);
                }
                if xs@.take(t + 1).contains(a as u32) && a != i {
                    let u = choose|u: int| 0 <= u < t + 1 && #[trigger] xs@.take(t + 1)[u] == a as u32;
                    assert(xs@.take(t as int)[u] == a as u32);
                }
                if xs@.take(t as int).contains(a as u32) {
                    let u = choose|u: int| 0 <= u < t && #[trigger] xs@.take(t as int)[u] == a as u32;
                    assert(xs@.take(t + 1)[u] == a as u32);
                }
            }
        }
        t = t + 1;
    }
    assert(xs@.take(xs@.len() as int) =~= xs@);
}

/// Paints with `p`, in each row listed in `ys`, the columns within `LEN` of column `x`.
pub fn draw_y_line(img: &mut Image, x: u32, ys: &Vec<u32>, p: Rgba)
    requires
        ys@.len() > 0 ==> LEN <= x && x + LEN < old(img).spec_width(),
        forall|t: int| 0 <= t < ys@.len() ==> #[trigger] ys@[t] < old(img).spec_height(),
    ensures
        final(img).spec_width() == old(img).spec_width(),
        final(img).spec_height() == old(img).spec_height(),
        forall|a: int, b: int| final(img).in_bounds(a, b) ==> #[trigger] final(img).px(a, b)
            == if ys@.contains(b as u32) && x - LEN <= a <= x + LEN { p } else { old(img).px(a, b) },
{
    let ghost orig = *img;
    let mut t: usize = 0;
    while t < ys.len()
        invariant
            ys@.len() > 0 ==> LEN <= x && x + LEN < orig.spec_width(),
            forall|u: int| 0 <= u < ys@.len() ==> #[trigger] ys@[u] < orig.spec_height(),
            t <= ys@.len(),
            img.spec_width() == orig.spec_width(),
            img.spec_height() == orig.spec_height(),
            forall|a: int, b: int| img.in_bounds(a, b) ==> #[trigger] img.px(a, b)
                == if ys@.take(t as int).contains(b as u32) && x - LEN <= a <= x + LEN { p } else { orig.px(a, b) },
        decreases ys@.len() - t,
    {
        let i = ys[t];
        let ghost before = *img;
        let mut j: u32 = x - LEN;
        while j <= x + LEN
            invariant
                LEN <= x,
                x - LEN <= j <= x + LEN + 1,
                i < orig.spec_height(),
                x + LEN < orig.spec_width(),
                img.spec_width() == orig.spec_width(),
                img.spec_height() == orig.spec_height(),
                forall|a: int, b: int| img.in_bounds(a, b) ==> #[trigger] img.px(a, b)
                    == if b == i && x - LEN <= a < j { p } else { before.px(a, b) },
            decreases x + LEN + 1 - j,
        {
            img.put_pixel(j, i, p);
            j = j + 1;
        }
        proof {
            assert forall|a: int, b: int| img.in_bounds(a, b) implies #[trigger] img.px(a, b)
                == if ys@.take(t + 1).contains(b as u32) && x - LEN <= a <= x + LEN { p } else { orig.px(a, b) } by {
                assert(before.px(a, b) == if ys@.take(t as int).contains(b as u32) && x - LEN <= a <= x + LEN { p } else { orig.px(a, b) });
                assert(ys@.take(t + 1) == ys@.take(t as int).push(i));
                if b == i {
                    assert(ys@.take(t + 1)[t as int] == i);
                }
                if ys@.take(t + 1).contains(b as u32) && b != i {
                    let u = choose|u: int| 0 <= u < t + 1 && #[trigger] ys@.take(t + 1)[u] == b as u32;
                    assert(ys@.take(t as int)[u] == b as u32);
                }
                if ys@.take(t as int).contains(b as u32) {
                    let u = choose|u: int| 0 <= u < t && #[trigger] ys@.take(t as int)[u] == b as u32;
                    assert(ys@.take(t + 1)[u] == b as u32);
                }
            }
        }
        t = t + 1;
    }
    assert(ys@.take(ys@.len() as int) =~= ys@);
}

/// `(dx, dy)` is one of the four unit steps.
pub open spec fn unit_step(dx: int, dy: int) -> bool {
    (dx == 0 && (dy == 1 || dy == -1)) || (dy == 0 && (dx == 1 || dx == -1))
}

/// Starting from `(x, y)` and stepping by `(dx, dy)`, the first position whose pixel lies outside
/// the image or differs from `op`.
pub open spec fn scan_end(img: Image, x: int, y: int, dx: int, dy: int, op: Rgba) -> (int, int)
    decreases (if dx > 0 { img.spec_width() - x } else if dx < 0 { x + 1 } else if dy > 0 {
        img.spec_height() - y
    } else {
        y + 1
    }),
{
    if !unit_step(dx, dy) || !img.in_bounds(x, y) || !same_px(img.px(x, y), op) {
        (x, y)
    } else {
        scan_end(img, x + dx, y + dy, dx, dy, op)
    }
}

proof fn lemma_scan_end(img: Image, x: int, y: int, dx: int, dy: int, op: Rgba)
    requires
        unit_step(dx, dy),
        -1 <= x <= img.spec_width(),
        -1 <= y <= img.spec_height(),
    ensures
        dx == 1 ==> x <= scan_end(img, x, y, dx, dy, op).0 <= img.spec_width() && scan_end(img, x, y, dx, dy, op).1 == y,
        dx == -1 ==> -1 <= scan_end(img, x, y, dx, dy, op).0 <= x && scan_end(img, x, y, dx, dy, op).1 == y,
        dy == 1 ==> y <= scan_end(img, x, y, dx, dy, op).1 <= img.spec_height() && scan_end(img, x, y, dx, dy, op).0 == x,
        dy == -1 ==> -1 <= scan_end(img, x, y, dx, dy, op).1 <= y && scan_end(img, x, y, dx, dy, op).0 == x,
    decreases (if dx > 0 { img.spec_width() - x } else if dx < 0 { x + 1 } else if dy > 0 {
        img.spec_height() - y
    } else {
        y + 1
    }),
{
    if img.in_bounds(x, y) && same_px(img.px(x, y), op) {
        lemma_scan_end(img, x + dx, y + dy, dx, dy, op);
    }
}

/// Steps from `(px, py)` by `(dx, dy)` while the pixel there lies in the image and equals `op`;
/// returns the first position where it does not.
fn scan_line(img: &Image, px: i32, py: i32, dx: i32, dy: i32, op: &Rgba) -> (st: (i32, i32))
    requires
        unit_step(dx as int, dy as int),
        img.in_bounds(px as int, py as int),
        img.spec_width() < 0x3fff_ffff,
        img.spec_height() < 0x3fff_ffff,
    ensures
        (st.0 as int, st.1 as int) == scan_end(*img, px as int, py as int, dx as int, dy as int, *op),
{
    let mut st0: i32 = px;
    let mut st1: i32 = py;
    let w = img.width();
    let h = img.height();
    loop
        invariant
            unit_step(dx as int, dy as int),
            w == img.spec_width(),
            h == img.spec_height(),
            w < 0x3fff_ffff,
            h < 0x3fff_ffff,
            -1 <= st0 <= w,
            -1 <= st1 <= h,
            scan_end(*img, st0 as int, st1 as int, dx as int, dy as int, *op)
                == scan_end(*img, px as int, py as int, dx as int, dy as int, *op),
        ensures
            (st0 as int, st1 as int) == scan_end(*img, px as int, py as int, dx as int, dy as int, *op),
        decreases (if dx > 0 { w - st0 } else if dx < 0 { st0 + 1 } else if dy > 0 { h - st1 } else { st1 + 1 }),
    {
        if st0 < 0 || st1 < 0 {
            assert(!img.in_bounds(st0 as int, st1 as int));
            break;
        }
        assert(st0 as u32 as int == st0 as int);
        assert(st1 as u32 as int == st1 as int);
        match img.get_pixel_checked(st0 as u32, st1 as u32) {
            None => {
                break;
            },
            Some(p) => {
                if !same_pixel(&p, op) {
                    break;
                }
                st0 = st0 + dx;
                st1 = st1 + dy;
            },
        }
    }
    (st0, st1)
}

/// The extent of the run of pixels equal to the one at `(px, py)`: the columns just left and
/// right of it in its row, and the rows just above and below it in its column.
pub open spec fn block_extent(img: Image, px: int, py: int) -> (int, int, int, int) {
    let op = img.px(px, py);
    (scan_end(img, px, py, -1, 0, op).0, scan_end(img, px, py, 1, 0, op).0,
     scan_end(img, px, py, 0, -1, op).1, scan_end(img, px, py, 0, 1, op).1)
}

/// Width and height of the run of pixels around `(px, py)` (each counted with one pixel more).
pub open spec fn block_sides(img: Image, px: int, py: int) -> (int, int) {
    let e = block_extent(img, px, py);
    (e.1 - e.0, e.3 - e.2)
}

/// The run around `(px, py)` is square enough: its sides differ by less than 4 pixels.
pub open spec fn block_square(img: Image, px: int, py: int) -> bool {
    let s = block_sides(img, px, py);
    -4 < s.0 - s.1 < 4
}

/// Centre column and row of the run around `(px, py)`, and the mean of its two sides.
pub open spec fn block_xy_len(img: Image, px: int, py: int) -> (int, int, int) {
    let e = block_extent(img, px, py);
    let s = block_sides(img, px, py);
    ((e.0 + e.1) / 2, (e.2 + e.3) / 2, (s.0 + s.1) / 2)
}

proof fn lemma_block_extent(img: Image, px: int, py: int)
    requires
        img.in_bounds(px, py),
    ensures
        -1 <= block_extent(img, px, py).0 < px < block_extent(img, px, py).1 <= img.spec_width(),
        -1 <= block_extent(img, px, py).2 < py < block_extent(img, px, py).3 <= img.spec_height(),
        img.in_bounds(block_xy_len(img, px, py).0, block_xy_len(img, px, py).1),
        block_xy_len(img, px, py).2 >= 0,
{
    let op = img.px(px, py);
    lemma_scan_end(img, px - 1, py, -1, 0, op);
    lemma_scan_end(img, px + 1, py, 1, 0, op);
    lemma_scan_end(img, px, py - 1, 0, -1, op);
    lemma_scan_end(img, px, py + 1, 0, 1, op);
    assert(scan_end(img, px, py, -1, 0, op) == scan_end(img, px - 1, py, -1, 0, op));
    assert(scan_end(img, px, py, 1, 0, op) == scan_end(img, px + 1, py, 1, 0, op));
    assert(scan_end(img, px, py, 0, -1, op) == scan_end(img, px, py - 1, 0, -1, op));
    assert(scan_end(img, px, py, 0, 1, op) == scan_end(img, px, py + 1, 0, 1, op));
}

/// The width and height of the run around `(px, py)` differ by 3 pixels or more.
pub open spec fn block_lopsided(img: Image, px: int, py: int) -> bool {
    let s = block_sides(img, px, py);
    s.0 - s.1 >= 3 || s.1 - s.0 >= 3
}

/// Finds the cell of the playfield at `(px, py)`: the run of equal pixels around it gives its
/// centre and its side (the mean of its width and height). Also returns whether its width and
/// height differ by 3 pixels, a sign that the screen should be looked at.
fn get_block_xy_len(img: &Image, px: i32, py: i32) -> (r: ((u32, u32, u32), bool))
    requires
        img.in_bounds(px as int, py as int),
        img.spec_width() < 0x3fff_ffff,
        img.spec_height() < 0x3fff_ffff,
        block_square(*img, px as int, py as int),
    ensures
        (r.0.0 as int, r.0.1 as int, r.0.2 as int) == block_xy_len(*img, px as int, py as int),
        r.1 == block_lopsided(*img, px as int, py as int),
{
    proof {
        lemma_block_extent(*img, px as int, py as int);
    }
    let op = img.get_pixel(px as u32, py as u32);
    let left = scan_line(img, px, py, -1, 0, &op);
    let right = scan_line(img, px, py, 1, 0, &op);
    let up = scan_line(img, px, py, 0, -1, &op);
    let down = scan_line(img, px, py, 0, 1, &op);
    assert(left.0 < px < right.0);
    assert(up.1 < py < down.1);
    let a: i32 = right.0 - left.0;
    let b: i32 = down.1 - up.1;
    let lopsided = a - b >= 3 || b - a >= 3;
    let mx: u32 = (left.0 + right.0) as u32 / 2;
    let my: u32 = (up.1 + down.1) as u32 / 2;
    let len: u32 = (a + b) as u32 / 2;
    ((mx, my, len), lopsided)
}

/// Number of cells between the two cells that `get_len` probes.
pub const UP_BLOCK_CNT: u32 = 6;

/// What `get_len` needs of the image: the probed runs lie in the image and are square enough,
/// and the cell positions it derives stay within the image.
pub open spec fn len_probe_ok(img: Image, px: int, py: int) -> bool {
    &&& img.spec_width() < 0x3fff_ffff
    &&& img.spec_height() < 0x3fff_ffff
    &&& img.in_bounds(px, py)
    &&& block_square(img, px, py)
    &&& {
        let (mx, my, len) = block_xy_len(img, px, py);
        &&& my >= len * UP_BLOCK_CNT
        &&& block_square(img, mx, my - len * UP_BLOCK_CNT)
        &&& {
            let my1 = block_xy_len(img, mx, my - len * UP_BLOCK_CNT).1;
            &&& my1 <= my
            &&& my >= (YCNT - 1) * ((my - my1) / UP_BLOCK_CNT as int)
        }
    }
}

/// Position of the top-left cell of the playfield and the side of a cell, found from the cell
/// at `(px, py)`.
pub open spec fn spec_get_len(img: Image, px: int, py: int) -> ((int, int), int) {
    let (mx, my, len) = block_xy_len(img, px, py);
    let my1 = block_xy_len(img, mx, my - len * UP_BLOCK_CNT).1;
    let side = (my - my1) / UP_BLOCK_CNT as int;
    ((mx, my - (YCNT - 1) * side), side)
}

/// How many of the two cells that `get_len` probes are lopsided (see `block_lopsided`).
pub open spec fn len_warnings(img: Image, px: int, py: int) -> int {
    let (mx, my, len) = block_xy_len(img, px, py);
    (if block_lopsided(img, px, py) { 1int } else { 0int })
        + (if block_lopsided(img, mx, my - len * UP_BLOCK_CNT) { 1int } else { 0int })
}

/// Finds the playfield from a cell of its bottom row at `(px, py)`: probes that cell and the
/// cell `UP_BLOCK_CNT` cells above it to get the side of a cell, and returns the centre of the
/// top-left cell and that side. Also returns how many of the two probed cells had sides that
/// differ by 3 pixels (a sign that the screen should be looked at).
pub fn get_len(img: &Image, px: i32, py: i32) -> (r: (((u32, u32), u32), u32))
    requires
        len_probe_ok(*img, px as int, py as int),
    ensures
        ((r.0.0.0 as int, r.0.0.1 as int), r.0.1 as int) == spec_get_len(*img, px as int, py as int),
        r.1 == len_warnings(*img, px as int, py as int),
{
    proof {
        lemma_block_extent(*img, px as int, py as int);
    }
    let ((mx, my, len), w0) = get_block_xy_len(img, px, py);
    proof {
        assert(len * UP_BLOCK_CNT <= my);
        lemma_block_extent(*img, mx as int, my - len * UP_BLOCK_CNT);
    }
    let ((_mx1, my1, _len1), w1) = get_block_xy_len(img, mx as i32, (my - len * UP_BLOCK_CNT) as i32);
    let len = (my - my1) / UP_BLOCK_CNT;
    let warnings: u32 = (if w0 { 1 } else { 0 }) + (if w1 { 1 } else { 0 });
    proof {
        assert((YCNT - 1) * len <= my);
    }
    (((mx, my - (YCNT - 1) * len), len), warnings)
}

/// Whether `get_len` can read the playfield from the cell at `(px, py)`.
pub fn get_len_ok(img: &Image, px: i32, py: i32) -> (r: bool)
    ensures
        r == len_probe_ok(*img, px as int, py as int),
{
    if img.width() >= 0x3fff_ffff || img.height() >= 0x3fff_ffff || px < 0 || py < 0 {
        return false;
    }
    if img.get_pixel_checked(px as u32, py as u32).is_none() {
        return false;
    }
    proof {
        lemma_block_extent(*img, px as int, py as int);
    }
    let op = img.get_pixel(px as u32, py as u32);
    let left = scan_line(img, px, py, -1, 0, &op);
    let right = scan_line(img, px, py, 1, 0, &op);
    let up = scan_line(img, px, py, 0, -1, &op);
    let down = scan_line(img, px, py, 0, 1, &op);
    let a: i32 = right.0 - left.0;
    let b: i32 = down.1 - up.1;
    if !(a - b < 4 && b - a < 4) {
        return false;
    }
    let ((mx, my, len), _) = get_block_xy_len(img, px, py);
    if (my as u64) < len as u64 * UP_BLOCK_CNT as u64 {
        return false;
    }
    let y1: u32 = my - len * UP_BLOCK_CNT;
    proof {
        lemma_block_extent(*img, mx as int, y1 as int);
    }
    let op1 = img.get_pixel(mx, y1);
    let up1 = scan_line(img, mx as i32, y1 as i32, 0, -1, &op1);
    let down1 = scan_line(img, mx as i32, y1 as i32, 0, 1, &op1);
    let left1 = scan_line(img, mx as i32, y1 as i32, -1, 0, &op1);
    let right1 = scan_line(img, mx as i32, y1 as i32, 1, 0, &op1);
    let a1: i32 = right1.0 - left1.0;
    let b1: i32 = down1.1 - up1.1;
    if !(a1 - b1 < 4 && b1 - a1 < 4) {
        return false;
    }
    let my1: u32 = (up1.1 + down1.1) as u32 / 2;
    if my1 > my {
        return false;
    }
    let side = (my - my1) / UP_BLOCK_CNT;
    let rows_above: u64 = (YCNT - 1) as u64;
    assert(rows_above * side <= rows_above * 0xffff_ffff) by (nonlinear_arith)
        requires
            rows_above == YCNT - 1,
            side <= 0xffff_ffff,
    ;
    (my as u64) >= rows_above * side as u64
}

/// Number of preview slots of next pieces.
pub const NEXT_CNT: u32 = 5;

/// Samples taken across a preview slot.
pub const X_SAMPLE: u32 = 3;

/// Samples taken down a preview slot.
pub const Y_SAMPLE: u32 = 3;

/// Colours counted in a preview slot: those of the tetrominoes, the first entries of the colour
/// table.
pub const PIECE_COLR_CNT: usize = 7;

/// Upper bound on the cell side, below which the preview geometry (two and a half and
/// seventeen cell sides below the top-left cell) is computed exactly.
pub const MAX_CELL_LEN: u32 = 0xf_0000;

/// The pixel is not classified as black.
pub open spec fn not_black(p: Rgba) -> bool {
    spec_color_of(p.0@) != TetrColr::Black
}

/// The centre of cell `(i, j)` (row, column) of the grid whose top-left cell is centred on
/// `(cx, cy)` with cells of side `len` lies in the image.
pub open spec fn cell_ok(img: Image, cx: int, cy: int, len: int, i: int, j: int) -> bool {
    img.in_bounds(cx + j * len, cy + i * len)
}

/// The pixel at the centre of cell `(i, j)`.
pub open spec fn cell_px(img: Image, cx: int, cy: int, len: int, i: int, j: int) -> Rgba {
    img.px(cx + j * len, cy + i * len)
}

/// The centres of the cells of the first `rows` rows lie in the image.
pub open spec fn cells_ok(img: Image, cx: int, cy: int, len: int, rows: int) -> bool {
    forall|i: int, j: int| 0 <= i < rows && 0 <= j < XCNT ==> #[trigger] cell_ok(img, cx, cy, len, i, j)
}

/// Number of top cells where the falling piece appears.
pub open spec fn top_cells() -> int {
    TOP_LINE * XCNT
}

/// Among the first `q` top cells (row by row), the number that are not black.
pub open spec fn top_count(img: Image, cx: int, cy: int, len: int, q: int) -> int
    decreases q,
{
    if q <= 0 {
        0
    } else {
        top_count(img, cx, cy, len, q - 1) + if not_black(cell_px(img, cx, cy, len, (q - 1) / XCNT as int, (q - 1) % XCNT as int)) {
            1int
        } else {
            0int
        }
    }
}

/// Among the first `q` top cells (row by row), the pixel of the first that is not black.
pub open spec fn first_top(img: Image, cx: int, cy: int, len: int, q: int) -> Option<Rgba>
    decreases q,
{
    if q <= 0 {
        None
    } else {
        match first_top(img, cx, cy, len, q - 1) {
            Some(p) => Some(p),
            None => {
                let p = cell_px(img, cx, cy, len, (q - 1) / XCNT as int, (q - 1) % XCNT as int);
                if not_black(p) {
                    Some(p)
                } else {
                    None
                }
            },
        }
    }
}

/// Geometry of the preview of next pieces, right of the playfield: its left column, its top
/// row, the height of one slot, and the gaps between samples across and down a slot.
pub open spec fn next_geom(cx: int, cy: int, len: int) -> (int, int, int, int, int) {
    let nsy = cy + len * 5 / 2;
    let ney = cy + len * 17;
    let nsx = cx + len * (XCNT + 1);
    let nex = cx + len * (XCNT + 4);
    let oyl = (ney - nsy) / NEXT_CNT as int;
    (nsx, nsy, oyl, (nex - nsx) / (X_SAMPLE + 1) as int, oyl / (Y_SAMPLE + 1) as int)
}

/// Position of sample `s` (0 to 8: three across, each three down) of preview slot `k`.
pub open spec fn sample_xy(cx: int, cy: int, len: int, k: int, s: int) -> (int, int) {
    let (nsx, nsy, oyl, xg, yg) = next_geom(cx, cy, len);
    (nsx + (s / Y_SAMPLE as int + 1) * xg, oyl * k + nsy + (s % Y_SAMPLE as int + 1) * yg)
}

/// Colour of sample `s` of preview slot `k`.
pub open spec fn sample_colour(img: Image, cx: int, cy: int, len: int, k: int, s: int) -> TetrColr {
    let (x, y) = sample_xy(cx, cy, len, k, s);
    spec_color_of(img.px(x, y).0@)
}

/// Among the first `n` samples of slot `k`, the number with the colour of table entry `ci`.
pub open spec fn slot_count(img: Image, cx: int, cy: int, len: int, k: int, ci: int, n: int) -> int
    decreases n,
{
    if n <= 0 {
        0
    } else {
        slot_count(img, cx, cy, len, k, ci, n - 1) + if sample_colour(img, cx, cy, len, k, n - 1)
            == spec_color_entry(ci).0 {
            1int
        } else {
            0int
        }
    }
}

/// Number of samples of a slot.
pub open spec fn slot_samples() -> int {
    X_SAMPLE * Y_SAMPLE
}

/// Among the first `n` piece colours, the one most frequent in slot `k` (the later on a tie),
/// or -1 when none occurs.
pub open spec fn slot_best(img: Image, cx: int, cy: int, len: int, k: int, n: int) -> int
    decreases n,
{
    if n <= 0 {
        -1
    } else {
        let b = slot_best(img, cx, cy, len, k, n - 1);
        let cnt = slot_count(img, cx, cy, len, k, n - 1, slot_samples());
        if cnt > 0 && (b < 0 || cnt >= slot_count(img, cx, cy, len, k, b, slot_samples())) {
            n - 1
        } else {
            b
        }
    }
}

/// What reading the preview needs: the playfield and the samples of every slot lie in the
/// image, the geometry fits in 32 bits, and every slot shows some piece colour.
pub open spec fn next_ok(img: Image, cx: int, cy: int, len: int) -> bool {
    &&& cells_ok(img, cx, cy, len, YCNT as int)
    &&& cy + len * 17 <= u32::MAX
    &&& cx + len * (XCNT + 4) <= u32::MAX
    &&& forall|k: int, s: int| 0 <= k < NEXT_CNT && 0 <= s < slot_samples() ==> {
        let (x, y) = #[trigger] sample_xy(cx, cy, len, k, s);
        img.in_bounds(x, y)
    }
    &&& forall|k: int| 0 <= k < NEXT_CNT ==> #[trigger] slot_best(img, cx, cy, len, k, PIECE_COLR_CNT as int) >= 0
}

/// What `get_current_pic` needs of the image: the top cells and the first cell below them lie in
/// it, and when the falling piece shows in the top rows, the rest of the playfield and the
/// preview can be read.
pub open spec fn pic_ok(img: Image, cx: int, cy: int, len: int) -> bool {
    &&& len < MAX_CELL_LEN
    &&& cells_ok(img, cx, cy, len, TOP_LINE as int)
    &&& cell_ok(img, cx, cy, len, TOP_LINE as int, 0)
    &&& top_count(img, cx, cy, len, top_cells()) == 4 ==> next_ok(img, cx, cy, len)
}

/// Counts the top cells that are not black and finds the first of them.
fn read_top(img: &Image, cx: u32, cy: u32, len: u32) -> (r: (u32, Option<Rgba>))
    requires
        cells_ok(*img, cx as int, cy as int, len as int, TOP_LINE as int),
    ensures
        r.0 == top_count(*img, cx as int, cy as int, len as int, top_cells()),
        r.1 == first_top(*img, cx as int, cy as int, len as int, top_cells()),
{
    let ghost (gx, gy, gl) = (cx as int, cy as int, len as int);
    let mut cnt: u32 = 0;
    let mut first: Option<Rgba> = None;
    let mut i: u32 = 0;
    while i < TOP_LINE as u32
        invariant
            gx == cx,
            gy == cy,
            gl == len,
            cells_ok(*img, gx, gy, gl, TOP_LINE as int),
            i <= TOP_LINE,
            cnt == top_count(*img, gx, gy, gl, i * XCNT),
            cnt <= i * XCNT,
            first == first_top(*img, gx, gy, gl, i * XCNT),
        decreases TOP_LINE - i,
    {
        let mut j: u32 = 0;
        while j < XCNT
            invariant
                gx == cx,
                gy == cy,
                gl == len,
                cells_ok(*img, gx, gy, gl, TOP_LINE as int),
                i < TOP_LINE,
                j <= XCNT,
                cnt == top_count(*img, gx, gy, gl, i * XCNT + j),
                cnt <= i * XCNT + j,
                first == first_top(*img, gx, gy, gl, i * XCNT + j),
            decreases XCNT - j,
        {
            let ghost q = i * XCNT + j;
            assert(q / XCNT as int == i && q % XCNT as int == j);
            assert(cell_ok(*img, gx, gy, gl, i as int, j as int));
            assert(0 <= j * len <= cx + j * len < u32::MAX) by (nonlinear_arith)
                requires
                    cx + j * len < img.spec_width(),
                    img.spec_width() <= u32::MAX,
            ;
            assert(0 <= i * len <= cy + i * len < u32::MAX) by (nonlinear_arith)
                requires
                    cy + i * len < img.spec_height(),
                    img.spec_height() <= u32::MAX,
            ;
            let p = img.get_pixel(cx + j * len, cy + i * len);
            if !is_black(&p) {
                if first.is_none() {
                    first = Some(p);
                }
                cnt = cnt + 1;
            }
            j = j + 1;
        }
        i = i + 1;
    }
    (cnt, first)
}

/// Reads the playfield: a cell is filled when its centre is not black; the top rows, where the
/// falling piece shows, are left empty.
fn read_grid(img: &Image, cx: u32, cy: u32, len: u32) -> (bits: Vec<Vec<bool>>)
    requires
        cells_ok(*img, cx as int, cy as int, len as int, YCNT as int),
    ensures
        bits@.len() == YCNT,
        forall|i: int| 0 <= i < YCNT ==> (#[trigger] bits@[i])@.len() == XCNT,
        forall|i: int, j: int| 0 <= i < YCNT && 0 <= j < XCNT ==> #[trigger] bits@[i]@[j]
            == (i >= TOP_LINE && not_black(cell_px(*img, cx as int, cy as int, len as int, i, j))),
{
    let ghost (gx, gy, gl) = (cx as int, cy as int, len as int);
    let mut bits: Vec<Vec<bool>> = Vec::new();
    let mut i: u32 = 0;
    while i < YCNT
        invariant
            gx == cx,
            gy == cy,
            gl == len,
            cells_ok(*img, gx, gy, gl, YCNT as int),
            i <= YCNT,
            bits@.len() == i,
            forall|a: int| 0 <= a < i ==> (#[trigger] bits@[a])@.len() == XCNT,
            forall|a: int, b: int| 0 <= a < i && 0 <= b < XCNT ==> #[trigger] bits@[a]@[b]
                == (a >= TOP_LINE && not_black(cell_px(*img, gx, gy, gl, a, b))),
        decreases YCNT - i,
    {
        let mut row: Vec<bool> = Vec::new();
        let mut j: u32 = 0;
        while j < XCNT
            invariant
                gx == cx,
                gy == cy,
                gl == len,
                cells_ok(*img, gx, gy, gl, YCNT as int),
                i < YCNT,
                j <= XCNT,
                row@.len() == j,
                forall|b: int| 0 <= b < j ==> #[trigger] row@[b]
                    == (i >= TOP_LINE && not_black(cell_px(*img, gx, gy, gl, i as int, b))),
            decreases XCNT - j,
        {
            if (i as usize) < TOP_LINE {
                row.push(false);
            } else {
                assert(cell_ok(*img, gx, gy, gl, i as int, j as int));
                assert(0 <= j * len <= cx + j * len < u32::MAX) by (nonlinear_arith)
                    requires
                        cx + j * len < img.spec_width(),
                        img.spec_width() <= u32::MAX,
                ;
                assert(0 <= i * len <= cy + i * len < u32::MAX) by (nonlinear_arith)
                    requires
                        cy + i * len < img.spec_height(),
                        img.spec_height() <= u32::MAX,
                ;
                let p = img.get_pixel(cx + j * len, cy + i * len);
                row.push(!is_black(&p));
            }
            j = j + 1;
        }
        let ghost prev = bits@;
        bits.push(row);
        assert forall|a: int, b: int| 0 <= a < i + 1 && 0 <= b < XCNT implies #[trigger] bits@[a]@[b]
            == (a >= TOP_LINE && not_black(cell_px(*img, gx, gy, gl, a, b))) by {
            if a < i {
                assert(bits@[a] == prev[a]);
            }
        }
        i = i + 1;
    }
    bits
}

/// Computes the preview geometry (see `next_geom`).
fn next_geometry(cx: u32, cy: u32, len: u32) -> (r: (u32, u32, u32, u32, u32))
    requires
        cy + len * 17 <= u32::MAX,
        cx + len * (XCNT + 4) <= u32::MAX,
    ensures
        (r.0 as int, r.1 as int, r.2 as int, r.3 as int, r.4 as int) == next_geom(cx as int, cy as int, len as int),
{
    let next_start_y = cy + len * 5 / 2;
    let next_end_y = cy + len * 17;
    assert(len * (XCNT + 1) <= len * (XCNT + 4)) by (nonlinear_arith);
    let next_start_x = cx + len * (XCNT + 1);
    let next_end_x = cx + len * (XCNT + 4);
    let one_y_len = (next_end_y - next_start_y) / NEXT_CNT;
    let one_x_len = next_end_x - next_start_x;
    let x_gap = one_x_len / (X_SAMPLE + 1);
    let y_gap = one_y_len / (Y_SAMPLE + 1);
    (next_start_x, next_start_y, one_y_len, x_gap, y_gap)
}

/// Index in the colour table of a piece colour.
fn colr_index(c: TetrColr) -> (r: usize)
    requires
        c != TetrColr::Black,
        c != TetrColr::Gray,
    ensures
        r < PIECE_COLR_CNT,
        spec_color_entry(r as int).0 == c,
{
    match c {
        TetrColr::Purple => 0,
        TetrColr::Red => 1,
        TetrColr::Cyan => 2,
        TetrColr::Blue => 3,
        TetrColr::Green => 4,
        TetrColr::Orange => 5,
        _ => 6,
    }
}

/// The samples of preview slot `k` lie in the image.
pub open spec fn slot_samples_ok(img: Image, cx: int, cy: int, len: int, k: int) -> bool {
    forall|s: int| 0 <= s < slot_samples() ==> {
        let (x, y) = #[trigger] sample_xy(cx, cy, len, k, s);
        img.in_bounds(x, y)
    }
}

/// The piece colour most frequent among the samples of preview slot `k` (the later in the colour
/// table on a tie), as an index into the colour table, or `None` when no sample has a piece
/// colour.
fn slot_pick(img: &Image, cx: u32, cy: u32, len: u32, k: u32) -> (r: Option<usize>)
    requires
        cy + len * 17 <= u32::MAX,
        cx + len * (XCNT + 4) <= u32::MAX,
        k < NEXT_CNT,
        slot_samples_ok(*img, cx as int, cy as int, len as int, k as int),
    ensures
        r is None <==> slot_best(*img, cx as int, cy as int, len as int, k as int, PIECE_COLR_CNT as int) < 0,
        r matches Some(b) ==> b == slot_best(*img, cx as int, cy as int, len as int, k as int, PIECE_COLR_CNT as int)
            && b < PIECE_COLR_CNT,
{
    let ghost (gx, gy, gl, gk) = (cx as int, cy as int, len as int, k as int);
    let (nsx, nsy, oyl, xg, yg) = next_geometry(cx, cy, len);
    let mut counts: Vec<u32> = Vec::new();
    let mut ci: usize = 0;
    while ci < PIECE_COLR_CNT
        invariant
            ci <= PIECE_COLR_CNT,
            counts@.len() == ci,
            forall|a: int| 0 <= a < ci ==> #[trigger] counts@[a] == 0,
        decreases PIECE_COLR_CNT - ci,
    {
        counts.push(0);
        ci = ci + 1;
    }
    assert(forall|a: int| 0 <= a < PIECE_COLR_CNT ==> #[trigger] counts@[a] == slot_count(*img, gx, gy, gl, gk, a, 0));
    let mut i: u32 = 1;
    while i <= X_SAMPLE
        invariant
            gx == cx,
            gy == cy,
            gl == len,
            gk == k,
            k < NEXT_CNT,
            (nsx as int, nsy as int, oyl as int, xg as int, yg as int) == next_geom(gx, gy, gl),
            slot_samples_ok(*img, gx, gy, gl, gk),
            1 <= i <= X_SAMPLE + 1,
            counts@.len() == PIECE_COLR_CNT,
            forall|a: int| 0 <= a < PIECE_COLR_CNT ==> #[trigger] counts@[a]
                == slot_count(*img, gx, gy, gl, gk, a, (i - 1) * Y_SAMPLE),
            forall|a: int| 0 <= a < PIECE_COLR_CNT ==> #[trigger] counts@[a] <= (i - 1) * Y_SAMPLE,
        decreases X_SAMPLE + 1 - i,
    {
        let mut j: u32 = 1;
        while j <= Y_SAMPLE
            invariant
                gx == cx,
                gy == cy,
                gl == len,
                gk == k,
                k < NEXT_CNT,
                (nsx as int, nsy as int, oyl as int, xg as int, yg as int) == next_geom(gx, gy, gl),
                slot_samples_ok(*img, gx, gy, gl, gk),
                1 <= i <= X_SAMPLE,
                1 <= j <= Y_SAMPLE + 1,
                counts@.len() == PIECE_COLR_CNT,
                forall|a: int| 0 <= a < PIECE_COLR_CNT ==> #[trigger] counts@[a]
                    == slot_count(*img, gx, gy, gl, gk, a, (i - 1) * Y_SAMPLE + (j - 1)),
                forall|a: int| 0 <= a < PIECE_COLR_CNT ==> #[trigger] counts@[a] <= (i - 1) * Y_SAMPLE + (j - 1),
            decreases Y_SAMPLE + 1 - j,
        {
            let ghost s = (i - 1) * Y_SAMPLE + (j - 1);
            assert(s / Y_SAMPLE as int == i - 1 && s % Y_SAMPLE as int == j - 1);
            let ghost xy = sample_xy(gx, gy, gl, gk, s);
            assert(img.in_bounds(xy.0, xy.1));
            assert(xy.0 == nsx + i * xg && xy.1 == oyl * k + nsy + j * yg);
            assert(0 <= i * xg <= nsx + i * xg < u32::MAX && 0 <= oyl * k <= oyl * k + nsy
                <= oyl * k + nsy + j * yg < u32::MAX && 0 <= j * yg) by (nonlinear_arith)
                requires
                    nsx + i * xg < img.spec_width(),
                    oyl * k + nsy + j * yg < img.spec_height(),
                    img.spec_width() <= u32::MAX,
                    img.spec_height() <= u32::MAX,
                    0 <= nsx,
                    0 <= nsy,
                    0 <= oyl,
                    0 <= xg,
                    0 <= yg,
                    0 <= i,
                    0 <= j,
                    0 <= k,
            ;
            let sy = oyl * k + nsy;
            let x = nsx + i * xg;
            let y = sy + j * yg;
            let p = img.get_pixel(x, y);
            let c = get_color(&p).unwrap();
            if c != TetrColr::Black && c != TetrColr::Gray {
                let idx = colr_index(c);
                let old_cnt = counts[idx];
                counts.set(idx, old_cnt + 1);
            }
            proof {
                assert forall|a: int| 0 <= a < PIECE_COLR_CNT implies #[trigger] counts@[a]
                    == slot_count(*img, gx, gy, gl, gk, a, s + 1) by {
                    assert(sample_colour(*img, gx, gy, gl, gk, s) == c);
                    if c == TetrColr::Black || c == TetrColr::Gray {
                        assert(spec_color_entry(a).0 != c);
                    }
                }
            }
            j = j + 1;
        }
        i = i + 1;
    }
    let mut best: Option<usize> = None;
    let mut ci: usize = 0;
    while ci < PIECE_COLR_CNT
        invariant
            gx == cx,
            gy == cy,
            gl == len,
            gk == k,
            ci <= PIECE_COLR_CNT,
            counts@.len() == PIECE_COLR_CNT,
            forall|a: int| 0 <= a < PIECE_COLR_CNT ==> #[trigger] counts@[a]
                == slot_count(*img, gx, gy, gl, gk, a, slot_samples()),
            best is None <==> slot_best(*img, gx, gy, gl, gk, ci as int) < 0,
            best matches Some(b) ==> b == slot_best(*img, gx, gy, gl, gk, ci as int) && b < ci,
            slot_best(*img, gx, gy, gl, gk, ci as int) < ci,
        decreases PIECE_COLR_CNT - ci,
    {
        let cnt = counts[ci];
        match best {
            None => {
                if cnt > 0 {
                    best = Some(ci);
                }
            },
            Some(b) => {
                if cnt > 0 && cnt >= counts[b] {
                    best = Some(ci);
                }
            },
        }
        ci = ci + 1;
    }
    best
}

/// The colour that preview slot `k` shows (see `slot_best`).
fn slot_colour(img: &Image, cx: u32, cy: u32, len: u32, k: u32) -> (r: TetrColr)
    requires
        cy + len * 17 <= u32::MAX,
        cx + len * (XCNT + 4) <= u32::MAX,
        k < NEXT_CNT,
        slot_samples_ok(*img, cx as int, cy as int, len as int, k as int),
        slot_best(*img, cx as int, cy as int, len as int, k as int, PIECE_COLR_CNT as int) >= 0,
    ensures
        r == spec_color_entry(slot_best(*img, cx as int, cy as int, len as int, k as int, PIECE_COLR_CNT as int)).0,
{
    let b = slot_pick(img, cx, cy, len, k).unwrap();
    color_entry(b).0
}

proof fn lemma_first_top(img: Image, cx: int, cy: int, len: int, q: int)
    ensures
        first_top(img, cx, cy, len, q) is Some <==> top_count(img, cx, cy, len, q) > 0,
        top_count(img, cx, cy, len, q) >= 0,
        first_top(img, cx, cy, len, q) matches Some(p) ==> not_black(p),
    decreases q,
{
    if q > 0 {
        lemma_first_top(img, cx, cy, len, q - 1);
    }
}

/// Reads the screen: the playfield, whose top-left cell is centred on `(cx, cy)` with cells of
/// side `len`, and the preview of next pieces to its right. Returns `None` unless exactly four
/// of the top cells (where the falling piece shows) are not black. Otherwise returns the
/// playfield (a cell is filled when its centre is not black; the top rows are left empty) and
/// the colours of the falling piece (that of the first top cell that is not black) and of the
/// five previewed pieces (for each slot, the piece colour most frequent among its samples, the
/// later in the colour table on a tie). The preview geometry is computed in integers.
pub fn get_current_pic(img: &Image, cx: u32, cy: u32, len: u32) -> (r: Option<(Vec<Vec<bool>>, Vec<TetrColr>)>)
    requires
        pic_ok(*img, cx as int, cy as int, len as int),
    ensures
        r is None <==> top_count(*img, cx as int, cy as int, len as int, top_cells()) != 4,
        r matches Some((bits, next)) ==> {
            &&& bits@.len() == YCNT
            &&& forall|i: int| 0 <= i < YCNT ==> (#[trigger] bits@[i])@.len() == XCNT
            &&& forall|i: int, j: int| 0 <= i < YCNT && 0 <= j < XCNT ==> #[trigger] bits@[i]@[j]
                == (i >= TOP_LINE && not_black(cell_px(*img, cx as int, cy as int, len as int, i, j)))
            &&& next@.len() == NEXT_CNT + 1
            &&& first_top(*img, cx as int, cy as int, len as int, top_cells()) matches Some(p)
                && next@[0] == spec_color_of(p.0@)
            &&& forall|k: int| 0 <= k < NEXT_CNT ==> #[trigger] next@[k + 1]
                == spec_color_entry(slot_best(*img, cx as int, cy as int, len as int, k, PIECE_COLR_CNT as int)).0
        },
{
    let ghost (gx, gy, gl) = (cx as int, cy as int, len as int);
    let (top_line_colr_cnt, next_colr) = read_top(img, cx, cy, len);
    if top_line_colr_cnt != 4 {
        return None;
    }
    proof {
        lemma_first_top(*img, gx, gy, gl, top_cells());
    }
    let bits = read_grid(img, cx, cy, len);
    let first = next_colr.unwrap();
    let mut next_colr_vec: Vec<TetrColr> = Vec::new();
    next_colr_vec.push(get_color(&first).unwrap());
    let mut k: u32 = 0;
    while k < NEXT_CNT
        invariant
            gx == cx,
            gy == cy,
            gl == len,
            next_ok(*img, gx, gy, gl),
            k <= NEXT_CNT,
            next_colr_vec@.len() == k + 1,
            next_colr_vec@[0] == spec_color_of(first.0@),
            forall|a: int| 0 <= a < k ==> #[trigger] next_colr_vec@[a + 1]
                == spec_color_entry(slot_best(*img, gx, gy, gl, a, PIECE_COLR_CNT as int)).0,
        decreases NEXT_CNT - k,
    {
        assert(slot_samples_ok(*img, gx, gy, gl, k as int)) by {
            assert forall|s: int| 0 <= s < slot_samples() implies {
                let (x, y) = #[trigger] sample_xy(gx, gy, gl, k as int, s);
                img.in_bounds(x, y)
            } by {
                let xy = sample_xy(gx, gy, gl, k as int, s);
            }
        }
        assert(slot_best(*img, gx, gy, gl, k as int, PIECE_COLR_CNT as int) >= 0);
        let c = slot_colour(img, cx, cy, len, k);
        next_colr_vec.push(c);
        k = k + 1;
    }
    Some((bits, next_colr_vec))
}

/// Whether the centres of the cells of the first `rows` rows lie in the image.
fn cells_in(img: &Image, cx: u32, cy: u32, len: u32, rows: u32) -> (r: bool)
    requires
        rows <= YCNT,
    ensures
        r == cells_ok(*img, cx as int, cy as int, len as int, rows as int),
{
    let ghost (gx, gy, gl) = (cx as int, cy as int, len as int);
    let w = img.width() as u64;
    let h = img.height() as u64;
    let mut i: u32 = 0;
    while i < rows
        invariant
            gx == cx,
            gy == cy,
            gl == len,
            w == img.spec_width(),
            h == img.spec_height(),
            i <= rows,
            rows <= YCNT,
            forall|a: int, b: int| 0 <= a < i && 0 <= b < XCNT ==> #[trigger] cell_ok(*img, gx, gy, gl, a, b),
        decreases rows - i,
    {
        let mut j: u32 = 0;
        while j < XCNT
            invariant
                gx == cx,
                gy == cy,
                gl == len,
                w == img.spec_width(),
                h == img.spec_height(),
                i < rows,
                rows <= YCNT,
                j <= XCNT,
                forall|a: int, b: int| 0 <= a < i && 0 <= b < XCNT ==> #[trigger] cell_ok(*img, gx, gy, gl, a, b),
                forall|b: int| 0 <= b < j ==> #[trigger] cell_ok(*img, gx, gy, gl, i as int, b),
            decreases XCNT - j,
        {
            assert(j * len <= XCNT * 0xffff_ffff && i * len <= YCNT * 0xffff_ffff) by (nonlinear_arith)
                requires
                    j <= XCNT,
                    i <= YCNT,
                    len <= 0xffff_ffff,
            ;
            let x: u64 = cx as u64 + j as u64 * len as u64;
            let y: u64 = cy as u64 + i as u64 * len as u64;
            if x >= w || y >= h {
                assert(!cell_ok(*img, gx, gy, gl, i as int, j as int));
                return false;
            }
            j = j + 1;
        }
        i = i + 1;
    }
    true
}

/// Whether `get_current_pic` can read the screen (see `pic_ok`).
pub fn get_current_pic_ok(img: &Image, cx: u32, cy: u32, len: u32) -> (r: bool)
    ensures
        r == pic_ok(*img, cx as int, cy as int, len as int),
{
    let ghost (gx, gy, gl) = (cx as int, cy as int, len as int);
    if len >= MAX_CELL_LEN {
        return false;
    }
    if !cells_in(img, cx, cy, len, TOP_LINE as u32) {
        return false;
    }
    assert(TOP_LINE as u32 * len <= YCNT * MAX_CELL_LEN) by (nonlinear_arith)
        requires
            len < MAX_CELL_LEN,
    ;
    let below: u64 = cy as u64 + TOP_LINE as u64 * len as u64;
    if cx >= img.width() || below >= img.height() as u64 {
        return false;
    }
    let (top_line_colr_cnt, _) = read_top(img, cx, cy, len);
    if top_line_colr_cnt != 4 {
        return true;
    }
    if !cells_in(img, cx, cy, len, YCNT) {
        return false;
    }
    if cy as u64 + len as u64 * 17 > u32::MAX as u64 || cx as u64 + len as u64 * (XCNT as u64 + 4) > u32::MAX as u64 {
        return false;
    }
    let (nsx, nsy, oyl, xg, yg) = next_geometry(cx, cy, len);
    let w = img.width() as u64;
    let h = img.height() as u64;
    let mut k: u32 = 0;
    while k < NEXT_CNT
        invariant
            gx == cx,
            gy == cy,
            gl == len,
            w == img.spec_width(),
            h == img.spec_height(),
            cy + len * 17 <= u32::MAX,
            cx + len * (XCNT + 4) <= u32::MAX,
            (nsx as int, nsy as int, oyl as int, xg as int, yg as int) == next_geom(gx, gy, gl),
            k <= NEXT_CNT,
            len < MAX_CELL_LEN,
            cells_ok(*img, gx, gy, gl, TOP_LINE as int),
            cell_ok(*img, gx, gy, gl, TOP_LINE as int, 0),
            top_count(*img, gx, gy, gl, top_cells()) == 4,
            cells_ok(*img, gx, gy, gl, YCNT as int),
            forall|a: int| 0 <= a < k ==> #[trigger] slot_samples_ok(*img, gx, gy, gl, a),
            forall|a: int| 0 <= a < k ==> #[trigger] slot_best(*img, gx, gy, gl, a, PIECE_COLR_CNT as int) >= 0,
        decreases NEXT_CNT - k,
    {
        let mut s: u32 = 0;
        while s < X_SAMPLE * Y_SAMPLE
            invariant
                gx == cx,
                gy == cy,
                gl == len,
                w == img.spec_width(),
                h == img.spec_height(),
                (nsx as int, nsy as int, oyl as int, xg as int, yg as int) == next_geom(gx, gy, gl),
                k < NEXT_CNT,
                len < MAX_CELL_LEN,
                cells_ok(*img, gx, gy, gl, TOP_LINE as int),
                cell_ok(*img, gx, gy, gl, TOP_LINE as int, 0),
                top_count(*img, gx, gy, gl, top_cells()) == 4,
                cells_ok(*img, gx, gy, gl, YCNT as int),
                cy + len * 17 <= u32::MAX,
                cx + len * (XCNT + 4) <= u32::MAX,
                s <= X_SAMPLE * Y_SAMPLE,
                forall|t: int| 0 <= t < s ==> {
                    let (x, y) = #[trigger] sample_xy(gx, gy, gl, k as int, t);
                    img.in_bounds(x, y)
                },
            decreases X_SAMPLE * Y_SAMPLE - s,
        {
            let i = s / Y_SAMPLE + 1;
            let j = s % Y_SAMPLE + 1;
            assert(i * xg <= 4 * 0xffff_ffff && oyl * k <= 5 * 0xffff_ffff && j * yg <= 4 * 0xffff_ffff) by (nonlinear_arith)
                requires
                    i <= 4,
                    j <= 4,
                    k <= 5,
                    xg <= 0xffff_ffff,
                    yg <= 0xffff_ffff,
                    oyl <= 0xffff_ffff,
            ;
            let x: u64 = nsx as u64 + i as u64 * xg as u64;
            let y: u64 = oyl as u64 * k as u64 + nsy as u64 + j as u64 * yg as u64;
            let ghost xy = sample_xy(gx, gy, gl, k as int, s as int);
            assert(xy.0 == x && xy.1 == y);
            if x >= w || y >= h {
                assert(!slot_samples_ok(*img, gx, gy, gl, k as int));
                return false;
            }
            s = s + 1;
        }
        assert(slot_samples_ok(*img, gx, gy, gl, k as int));
        if slot_pick(img, cx, cy, len, k).is_none() {
            return false;
        }
        k = k + 1;
    }
    proof {
        assert forall|a: int, t: int| 0 <= a < NEXT_CNT && 0 <= t < slot_samples() implies {
            let (x, y) = #[trigger] sample_xy(gx, gy, gl, a, t);
            img.in_bounds(x, y)
        } by {
            assert(slot_samples_ok(*img, gx, gy, gl, a));
        }
        assert(next_ok(*img, gx, gy, gl));
    }
    true
}

/// Among the first `q` cells of the playfield (row by row), one that is empty in `bits` has its
/// mark cover pixel `(a, b)`.
pub open spec fn marked_upto(bits: Seq<Seq<bool>>, cx: int, cy: int, len: int, q: int, a: int, b: int) -> bool
    decreases q,
{
    if q <= 0 {
        false
    } else {
        let i = (q - 1) / XCNT as int;
        let j = (q - 1) % XCNT as int;
        marked_upto(bits, cx, cy, len, q - 1, a, b) || (!bits[i][j] && in_square(a, b, cx + j * len, cy + i * len))
    }
}

/// Number of cells of the playfield.
pub open spec fn grid_cells() -> int {
    YCNT * XCNT
}

/// What `draw_img_bits` needs: the playfield grid is read from `bits`, and the mark of every
/// empty cell lies in the image.
pub open spec fn img_bits_ok(img: Image, bits: Seq<Seq<bool>>, cx: int, cy: int, len: int) -> bool {
    &&& bits.len() >= YCNT
    &&& forall|i: int| 0 <= i < YCNT ==> (#[trigger] bits[i]).len() >= XCNT
    &&& forall|i: int, j: int| 0 <= i < YCNT && 0 <= j < XCNT && !#[trigger] bits[i][j] ==> {
        &&& LEN <= cx + j * len
        &&& LEN <= cy + i * len
        &&& img.in_bounds(cx + j * len + LEN, cy + i * len + LEN)
    }
}

/// Marks in white, on the image, every cell of the playfield that is empty in `bits` (a square
/// of half side `LEN` around its centre); the top-left cell is centred on `(cx, cy)` and cells
/// have side `len`.
pub fn draw_img_bits(img: Image, bits: &Vec<Vec<bool>>, cx: u32, cy: u32, len: u32) -> (r: Image)
    requires
        img_bits_ok(img, bits_view(*bits), cx as int, cy as int, len as int),
    ensures
        r.spec_width() == img.spec_width(),
        r.spec_height() == img.spec_height(),
        forall|a: int, b: int| r.in_bounds(a, b) ==> #[trigger] r.px(a, b)
            == if marked_upto(bits_view(*bits), cx as int, cy as int, len as int, grid_cells(), a, b) {
                Rgba([0xff, 0xff, 0xff, 0xff])
            } else {
                img.px(a, b)
            },
{
    let ghost bv = bits_view(*bits);
    let ghost (gx, gy, gl) = (cx as int, cy as int, len as int);
    let white = Rgba([0xff, 0xff, 0xff, 0xff]);
    let mut img2 = img;
    let mut i: u32 = 0;
    while i < YCNT
        invariant
            bv == bits_view(*bits),
            gx == cx,
            gy == cy,
            gl == len,
            img_bits_ok(img, bv, gx, gy, gl),
            i <= YCNT,
            img2.spec_width() == img.spec_width(),
            img2.spec_height() == img.spec_height(),
            white == Rgba([0xff, 0xff, 0xff, 0xff]),
            forall|a: int, b: int| img2.in_bounds(a, b) ==> #[trigger] img2.px(a, b)
                == if marked_upto(bv, gx, gy, gl, i * XCNT, a, b) { white } else { img.px(a, b) },
        decreases YCNT - i,
    {
        let mut j: u32 = 0;
        while j < XCNT
            invariant
                bv == bits_view(*bits),
                gx == cx,
                gy == cy,
                gl == len,
                img_bits_ok(img, bv, gx, gy, gl),
                i < YCNT,
                j <= XCNT,
                img2.spec_width() == img.spec_width(),
                img2.spec_height() == img.spec_height(),
                white == Rgba([0xff, 0xff, 0xff, 0xff]),
                forall|a: int, b: int| img2.in_bounds(a, b) ==> #[trigger] img2.px(a, b)
                    == if marked_upto(bv, gx, gy, gl, i * XCNT + j, a, b) { white } else { img.px(a, b) },
            decreases XCNT - j,
        {
            let ghost q = i * XCNT + j;
            assert(q / XCNT as int == i && q % XCNT as int == j);
            assert(bv[i as int].len() >= XCNT);
            assert(bits@[i as int]@ == bv[i as int]);
            let ghost before = img2;
            if bits[i as usize][j as usize] == false {
                assert(!bv[i as int][j as int]);
                assert(0 <= j * len <= cx + j * len < u32::MAX - LEN && 0 <= i * len <= cy + i * len < u32::MAX - LEN) by (nonlinear_arith)
                    requires
                        cx + j * len + LEN < img.spec_width(),
                        cy + i * len + LEN < img.spec_height(),
                        img.spec_width() <= u32::MAX,
                        img.spec_height() <= u32::MAX,
                        0 <= i,
                        0 <= j,
                ;
                draw_rect(&mut img2, cx + j * len, cy + i * len, white);
            }
            assert forall|a: int, b: int| img2.in_bounds(a, b) implies #[trigger] img2.px(a, b)
                == if marked_upto(bv, gx, gy, gl, q + 1, a, b) { white } else { img.px(a, b) } by {
                assert(before.px(a, b) == if marked_upto(bv, gx, gy, gl, q, a, b) { white } else { img.px(a, b) });
            }
            j = j + 1;
        }
        i = i + 1;
    }
    img2
}

/// Whether `draw_img_bits` can mark the empty cells of `bits` on the image (see `img_bits_ok`).
pub fn draw_img_bits_ok(img: &Image, bits: &Vec<Vec<bool>>, cx: u32, cy: u32, len: u32) -> (r: bool)
    ensures
        r == img_bits_ok(*img, bits_view(*bits), cx as int, cy as int, len as int),
{
    let ghost bv = bits_view(*bits);
    let ghost (gx, gy, gl) = (cx as int, cy as int, len as int);
    if bits.len() < YCNT as usize {
        return false;
    }
    let mut i: usize = 0;
    while i < YCNT as usize
        invariant
            bv == bits_view(*bits),
            bits@.len() >= YCNT,
            i <= YCNT,
            forall|a: int| 0 <= a < i ==> (#[trigger] bv[a]).len() >= XCNT,
        decreases YCNT - i,
    {
        if bits[i].len() < XCNT as usize {
            assert(bv[i as int].len() < XCNT);
            return false;
        }
        i = i + 1;
    }
    let w = img.width() as u64;
    let h = img.height() as u64;
    let mut i: u32 = 0;
    while i < YCNT
        invariant
            bv == bits_view(*bits),
            gx == cx,
            gy == cy,
            gl == len,
            w == img.spec_width(),
            h == img.spec_height(),
            bv.len() >= YCNT,
            forall|a: int| 0 <= a < YCNT ==> (#[trigger] bv[a]).len() >= XCNT,
            i <= YCNT,
            forall|a: int, b: int| 0 <= a < i && 0 <= b < XCNT && !#[trigger] bv[a][b] ==> {
                &&& LEN <= gx + b * gl
                &&& LEN <= gy + a * gl
                &&& img.in_bounds(gx + b * gl + LEN, gy + a * gl + LEN)
            },
        decreases YCNT - i,
    {
        let mut j: u32 = 0;
        while j < XCNT
            invariant
                bv == bits_view(*bits),
                gx == cx,
                gy == cy,
                gl == len,
                w == img.spec_width(),
                h == img.spec_height(),
                bv.len() >= YCNT,
                forall|a: int| 0 <= a < YCNT ==> (#[trigger] bv[a]).len() >= XCNT,
                i < YCNT,
                j <= XCNT,
                forall|a: int, b: int| 0 <= a < i && 0 <= b < XCNT && !#[trigger] bv[a][b] ==> {
                    &&& LEN <= gx + b * gl
                    &&& LEN <= gy + a * gl
                    &&& img.in_bounds(gx + b * gl + LEN, gy + a * gl + LEN)
                },
                forall|b: int| 0 <= b < j && !#[trigger] bv[i as int][b] ==> {
                    &&& LEN <= gx + b * gl
                    &&& LEN <= gy + i * gl
                    &&& img.in_bounds(gx + b * gl + LEN, gy + i * gl + LEN)
                },
            decreases XCNT - j,
        {
            assert(bits@[i as int]@ == bv[i as int]);
            assert(bv[i as int].len() >= XCNT);
            if !bits[i as usize][j as usize] {
                assert(j * len <= XCNT * 0xffff_ffff && i * len <= YCNT * 0xffff_ffff) by (nonlinear_arith)
                    requires
                        j <= XCNT,
                        i <= YCNT,
                        len <= 0xffff_ffff,
                ;
                let x: u64 = cx as u64 + j as u64 * len as u64;
                let y: u64 = cy as u64 + i as u64 * len as u64;
                if x < LEN as u64 || y < LEN as u64 || x + LEN as u64 >= w || y + LEN as u64 >= h {
                    assert(!bv[i as int][j as int]);
                    return false;
                }
            }
            j = j + 1;
        }
        i = i + 1;
    }
    true
}

} // verus!
