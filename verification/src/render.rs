//! Painting glyphs and text into a pixel buffer.
//!
//! The renderer owns no pixels: it writes a caller's [`PixelBuffer`] and
//! never reads what is already there. A line segment is painted only when
//! both of its device endpoints lie inside the buffer; a segment with an
//! endpoint outside is discarded whole rather than clipped, a deliberate
//! simplification of this renderer that its callers rely on.

use vstd::prelude::*;

use crate::raster::{line_len, line_points, points_model, trace_line, vec2_model, Coord, Vec2};
use crate::reader::HersheyChar;

verus! {

/// Whether a point lies inside a `w` by `h` pixel area.
pub open spec fn in_area(p: (int, int), w: int, h: int) -> bool {
    0 <= p.0 < w && 0 <= p.1 < h
}

/// The color of pixel `q` in row-major pixel data of row length `w`.
pub open spec fn pixel_at(data: Seq<u32>, w: int, q: (int, int)) -> u32 {
    data[q.1 * w + q.0]
}

/// Pixel data with the color at point `p` replaced, when `p`'s row-major
/// index is in range.
pub open spec fn paint_point(data: Seq<u32>, w: int, p: (int, int), color: u32) -> Seq<u32> {
    let idx = p.1 * w + p.0;
    if 0 <= idx < data.len() {
        data.update(idx, color)
    } else {
        data
    }
}

/// Pixel data with the color written at every listed point, first to last.
pub open spec fn paint_points(data: Seq<u32>, w: int, pts: Seq<(int, int)>, color: u32) -> Seq<u32>
    decreases pts.len(),
{
    if pts.len() == 0 {
        data
    } else {
        paint_points(paint_point(data, w, pts[0], color), w, pts.drop_first(), color)
    }
}

/// Painting never changes how many pixels there are.
pub proof fn lemma_paint_points_len(data: Seq<u32>, w: int, pts: Seq<(int, int)>, color: u32)
    ensures
        paint_points(data, w, pts, color).len() == data.len(),
    decreases pts.len(),
{
    if pts.len() > 0 {
        lemma_paint_points_len(paint_point(data, w, pts[0], color), w, pts.drop_first(), color);
    }
}

/// Writing one more point after a batch is the batch extended by that point.
proof fn lemma_paint_points_snoc(data: Seq<u32>, w: int, pts: Seq<(int, int)>, p: (int, int), color: u32)
    ensures
        paint_points(data, w, pts.push(p), color) == paint_point(
            paint_points(data, w, pts, color),
            w,
            p,
            color,
        ),
    decreases pts.len(),
{
    if pts.len() == 0 {
        assert(pts.push(p)[0] == p);
        assert(pts.push(p).drop_first() =~= Seq::<(int, int)>::empty());
        assert(paint_points(data, w, pts.push(p), color) == paint_points(
            paint_point(data, w, p, color),
            w,
            Seq::<(int, int)>::empty(),
            color,
        ));
        assert(paint_points(paint_point(data, w, p, color), w, Seq::<(int, int)>::empty(), color)
            == paint_point(data, w, p, color));
        assert(paint_points(data, w, pts, color) == data);
    } else {
        let d2 = paint_point(data, w, pts[0], color);
        assert(pts.push(p)[0] == pts[0]);
        assert(pts.push(p).drop_first() =~= pts.drop_first().push(p));
        lemma_paint_points_snoc(d2, w, pts.drop_first(), p, color);
        assert(paint_points(data, w, pts.push(p), color) == paint_points(
            d2,
            w,
            pts.drop_first().push(p),
            color,
        ));
        assert(paint_points(data, w, pts, color) == paint_points(d2, w, pts.drop_first(), color));
    }
}

/// A pixel store of `width * height` colors, row by row, owned by whoever
/// renders into it.
pub struct PixelBuffer {
    data: Vec<u32>,
    width: usize,
    height: usize,
}

impl PixelBuffer {
    /// Pixel columns.
    pub closed spec fn spec_width(&self) -> int {
        self.width as int
    }

    /// Pixel rows.
    pub closed spec fn spec_height(&self) -> int {
        self.height as int
    }

    /// The pixel data, row by row.
    pub closed spec fn spec_data(&self) -> Seq<u32> {
        self.data@
    }

    /// The store holds exactly its grid, and each side is small enough to
    /// measure in device coordinates.
    pub open spec fn wf(&self) -> bool {
        &&& self.spec_data().len() == self.spec_width() * self.spec_height()
        &&& self.spec_data().len() <= usize::MAX as int
        &&& self.spec_width() <= u32::MAX as int
        &&& self.spec_height() <= u32::MAX as int
    }

    /// A buffer of the given size with every pixel set to `fill`. The size
    /// bounds keep the allocation addressable.
    pub fn new(width: usize, height: usize, fill: u32) -> (r: PixelBuffer)
        requires
            width <= u32::MAX,
            height <= u32::MAX,
            width * height <= usize::MAX,
        ensures
            r.wf(),
            r.spec_width() == width,
            r.spec_height() == height,
            r.spec_data() == Seq::new((width * height) as nat, |i: int| fill),
    {
        proof {
            vstd::arithmetic::mul::lemma_mul_nonnegative(width as int, height as int);
        }
        let n: usize = width * height;
        let data: Vec<u32> = vec![fill; n];
        proof {
            assert(data@ =~= Seq::new((width * height) as nat, |i: int| fill));
        }
        PixelBuffer { data, width, height }
    }

    /// Set every pixel back to one color.
    pub fn fill(&mut self, color: u32)
        requires
            old(self).wf(),
        ensures
            final(self).wf(),
            final(self).spec_width() == old(self).spec_width(),
            final(self).spec_height() == old(self).spec_height(),
            final(self).spec_data() == Seq::new(old(self).spec_data().len(), |i: int| color),
    {
        let n: usize = self.data.len();
        let data: Vec<u32> = vec![color; n];
        proof {
            assert(data@ =~= Seq::new(old(self).spec_data().len(), |i: int| color));
        }
        self.data = data;
    }

    /// Pixel columns.
    pub fn width(&self) -> (r: usize)
        ensures
            r == self.spec_width(),
    {
        self.width
    }

    /// Pixel rows.
    pub fn height(&self) -> (r: usize)
        ensures
            r == self.spec_height(),
    {
        self.height
    }

    /// The pixel data, row by row.
    pub fn data(&self) -> (r: &Vec<u32>)
        ensures
            r@ == self.spec_data(),
    {
        &self.data
    }

    /// The exclusive corner: one past the last column and row.
    pub fn corner(&self) -> (r: Vec2)
        requires
            self.wf(),
        ensures
            vec2_model(r) == (self.spec_width(), self.spec_height()),
    {
        (self.width as i64, self.height as i64)
    }

    /// The color at an in-range point.
    pub fn pixel(&self, p: Vec2) -> (r: u32)
        requires
            self.wf(),
            in_area(vec2_model(p), self.spec_width(), self.spec_height()),
        ensures
            r == pixel_at(self.spec_data(), self.spec_width(), vec2_model(p)),
    {
        proof {
            lemma_index_in_range(p.0 as int, p.1 as int, self.spec_width(), self.spec_height());
        }
        let idx = vec2_to_index(p, self.width);
        self.data[idx]
    }

    /// Write the color at an in-range point.
    pub fn put(&mut self, p: Vec2, color: u32)
        requires
            old(self).wf(),
            in_area(vec2_model(p), old(self).spec_width(), old(self).spec_height()),
        ensures
            final(self).wf(),
            final(self).spec_width() == old(self).spec_width(),
            final(self).spec_height() == old(self).spec_height(),
            final(self).spec_data() == paint_point(
                old(self).spec_data(),
                old(self).spec_width(),
                vec2_model(p),
                color,
            ),
    {
        proof {
            lemma_index_in_range(p.0 as int, p.1 as int, self.spec_width(), self.spec_height());
        }
        let idx = vec2_to_index(p, self.width);
        self.data[idx] = color;
    }
}

/// The row-major index of an in-area point is in range of the grid.
pub proof fn lemma_index_in_range(x: int, y: int, w: int, h: int)
    requires
        0 <= x < w,
        0 <= y < h,
    ensures
        0 <= y * w + x < w * h,
{
    assert(y * w + x < w * h && y * w >= 0) by (nonlinear_arith)
        requires
            0 <= x < w && 0 <= y < h,
    ;
}

/// Row-major indexing is reversible: the index pins down its point.
pub proof fn lemma_index_unique(x: int, y: int, w: int)
    requires
        0 <= x < w,
        0 <= y,
    ensures
        (y * w + x) / w == y,
        (y * w + x) % w == x,
{
    vstd::arithmetic::div_mod::lemma_fundamental_div_mod_converse_div(y * w + x, w, y, x);
    vstd::arithmetic::div_mod::lemma_fundamental_div_mod_converse_mod(y * w + x, w, y, x);
}

/// Whether `a` lies inside the area whose exclusive corner is `corner`.
pub fn vec2_within(a: Vec2, corner: Vec2) -> (r: bool)
    ensures
        r == in_area(vec2_model(a), corner.0 as int, corner.1 as int),
{
    a.0 >= 0 && a.0 < corner.0 && a.1 >= 0 && a.1 < corner.1
}

/// Whether `a` lies in the half-open box from `tl` to `br`.
pub fn vec2_within_bounds(a: Vec2, tl: Vec2, br: Vec2) -> (r: bool)
    ensures
        r == (tl.0 <= a.0 < br.0 && tl.1 <= a.1 < br.1),
{
    a.0 >= tl.0 && a.0 < br.0 && a.1 >= tl.1 && a.1 < br.1
}

/// The row-major index of `a` in rows of length `width`.
pub fn vec2_to_index(a: Vec2, width: usize) -> (r: usize)
    requires
        0 <= a.0 < width,
        0 <= a.1,
        a.1 * width + a.0 <= usize::MAX,
    ensures
        r == a.1 * width + a.0,
{
    proof {
        assert(a.1 as int <= a.1 as int * width as int && a.1 as int * width as int >= 0)
            by (nonlinear_arith)
            requires
                a.1 as int >= 0 && width as int >= 1,
        ;
    }
    (a.1 as usize) * width + (a.0 as usize)
}

/// Widen a glyph's stored point to a device point.
pub fn v2i8_to_vec2(v: (i8, i8)) -> (r: Vec2)
    ensures
        vec2_model(r) == (v.0 as int, v.1 as int),
{
    (v.0 as i64, v.1 as i64)
}

/// What one written point does to every pixel: that point takes the color,
/// every other pixel keeps its own.
pub proof fn lemma_paint_point_pointwise(data: Seq<u32>, w: int, h: int, p: (int, int), color: u32)
    requires
        data.len() == w * h,
        in_area(p, w, h),
    ensures
        paint_point(data, w, p, color).len() == data.len(),
        forall|q: (int, int)|
            in_area(q, w, h) ==> #[trigger] pixel_at(paint_point(data, w, p, color), w, q) == (
            if q == p {
                color
            } else {
                pixel_at(data, w, q)
            }),
{
    lemma_index_in_range(p.0, p.1, w, h);
    let d2 = paint_point(data, w, p, color);
    assert forall|q: (int, int)| in_area(q, w, h) implies #[trigger] pixel_at(d2, w, q) == (
    if q == p {
        color
    } else {
        pixel_at(data, w, q)
    }) by {
        lemma_index_in_range(q.0, q.1, w, h);
        if q != p {
            lemma_index_unique(q.0, q.1, w);
            lemma_index_unique(p.0, p.1, w);
        }
    }
}

/// Whether `q` lies on the outline that a rectangle from `tl` to `br` paints:
/// its two full rows, and the two columns strictly between them.
pub open spec fn on_rect_border(q: (int, int), tl: (int, int), br: (int, int)) -> bool {
    ||| (tl.0 <= q.0 <= br.0 && (q.1 == tl.1 || q.1 == br.1))
    ||| ((q.0 == tl.0 || q.0 == br.0) && tl.1 < q.1 < br.1)
}

/// Paint the outline of the rectangle whose inclusive corners are `tl` and
/// `br`, or nothing at all if either corner lies outside the buffer. An
/// inverted rectangle paints only what its loops reach: nothing of the rows
/// when `br` is left of `tl`, nothing of the columns when it is above.
pub fn draw_rect(buf: &mut PixelBuffer, tl: Vec2, br: Vec2, color: u32)
    requires
        old(buf).wf(),
    ensures
        final(buf).wf(),
        final(buf).spec_width() == old(buf).spec_width(),
        final(buf).spec_height() == old(buf).spec_height(),
        forall|q: (int, int)|
            in_area(q, old(buf).spec_width(), old(buf).spec_height()) ==> #[trigger] pixel_at(
                final(buf).spec_data(),
                old(buf).spec_width(),
                q,
            ) == (if in_area(vec2_model(tl), old(buf).spec_width(), old(buf).spec_height())
                && in_area(vec2_model(br), old(buf).spec_width(), old(buf).spec_height())
                && on_rect_border(q, vec2_model(tl), vec2_model(br)) {
                color
            } else {
                pixel_at(old(buf).spec_data(), old(buf).spec_width(), q)
            }),
{
    let corner = buf.corner();
    if !vec2_within(tl, corner) || !vec2_within(br, corner) {
        return ;
    }
    let ghost w = buf.spec_width();
    let ghost h = buf.spec_height();
    let ghost data0 = buf.spec_data();
    let ghost tlm = vec2_model(tl);
    let ghost brm = vec2_model(br);
    let mut x: i64 = tl.0;
    while x <= br.0
        invariant
            tl.0 <= x <= br.0 + 1 || x == tl.0,
            buf.wf(),
            buf.spec_width() == w,
            buf.spec_height() == h,
            in_area(tlm, w, h),
            in_area(brm, w, h),
            tlm == vec2_model(tl),
            brm == vec2_model(br),
            data0.len() == w * h,
            forall|q: (int, int)|
                in_area(q, w, h) ==> #[trigger] pixel_at(buf.spec_data(), w, q) == (if tlm.0
                    <= q.0 < x && (q.1 == tlm.1 || q.1 == brm.1) {
                    color
                } else {
                    pixel_at(data0, w, q)
                }),
        decreases br.0 + 1 - x,
    {
        let ghost dpre = buf.spec_data();
        buf.put((x, tl.1), color);
        let ghost dmid = buf.spec_data();
        buf.put((x, br.1), color);
        proof {
            lemma_paint_point_pointwise(dpre, w, h, (x as int, tlm.1), color);
            lemma_paint_point_pointwise(dmid, w, h, (x as int, brm.1), color);
        }
        x = x + 1;
    }
    let mut y: i64 = tl.1 + 1;
    while y < br.1
        invariant
            tl.1 + 1 <= y <= br.1 || y == tl.1 + 1,
            buf.wf(),
            buf.spec_width() == w,
            buf.spec_height() == h,
            in_area(tlm, w, h),
            in_area(brm, w, h),
            tlm == vec2_model(tl),
            brm == vec2_model(br),
            data0.len() == w * h,
            forall|q: (int, int)|
                in_area(q, w, h) ==> #[trigger] pixel_at(buf.spec_data(), w, q) == (if (tlm.0
                    <= q.0 <= brm.0 && (q.1 == tlm.1 || q.1 == brm.1)) || ((q.0 == tlm.0 || q.0
                    == brm.0) && tlm.1 < q.1 < y) {
                    color
                } else {
                    pixel_at(data0, w, q)
                }),
        decreases br.1 - y,
    {
        let ghost dpre = buf.spec_data();
        buf.put((tl.0, y), color);
        let ghost dmid = buf.spec_data();
        buf.put((br.0, y), color);
        proof {
            lemma_paint_point_pointwise(dpre, w, h, (tlm.0, y as int), color);
            lemma_paint_point_pointwise(dmid, w, h, (brm.0, y as int), color);
        }
        y = y + 1;
    }
}

/// Paint the pixel path from `a` to `b`, or nothing at all if either
/// endpoint lies outside the buffer: an out-of-bounds segment is dropped
/// whole, never clipped.
pub fn draw_line(buf: &mut PixelBuffer, a: Vec2, b: Vec2, color: u32)
    requires
        old(buf).wf(),
    ensures
        final(buf).wf(),
        final(buf).spec_width() == old(buf).spec_width(),
        final(buf).spec_height() == old(buf).spec_height(),
        final(buf).spec_data() == (if in_area(vec2_model(a), old(buf).spec_width(), old(buf).spec_height())
            && in_area(vec2_model(b), old(buf).spec_width(), old(buf).spec_height()) {
            paint_points(
                old(buf).spec_data(),
                old(buf).spec_width(),
                line_points(vec2_model(a), vec2_model(b)),
                color,
            )
        } else {
            old(buf).spec_data()
        }),
{
    let corner = buf.corner();
    if !vec2_within(a, corner) || !vec2_within(b, corner) {
        return ;
    }
    let ghost w = buf.spec_width();
    let ghost h = buf.spec_height();
    let ghost ma = vec2_model(a);
    let ghost mb = vec2_model(b);
    proof {
        assert(w * h >= w && w * h >= h) by (nonlinear_arith)
            requires
                w >= 1 && h >= 1,
        ;
        assert(line_len(ma, mb) <= usize::MAX as int);
    }
    let pts = trace_line(a, b);
    let ghost path = line_points(ma, mb);
    let ghost data0 = buf.spec_data();
    let mut i: usize = 0;
    while i < pts.len()
        invariant
            i <= pts@.len(),
            pts@.len() == path.len(),
            points_model(pts@) == path,
            buf.wf(),
            buf.spec_width() == w,
            buf.spec_height() == h,
            in_area(ma, w, h),
            in_area(mb, w, h),
            ma == vec2_model(a) && mb == vec2_model(b),
            path == line_points(ma, mb),
            data0 == old(buf).spec_data(),
            buf.spec_data() == paint_points(data0, w, path.take(i as int), color),
        decreases pts@.len() - i,
    {
        let q = pts[i];
        proof {
            assert(vec2_model(q) == path[i as int]);
            crate::raster::lemma_line_point_in_box(ma, mb, i as int);
            assert(in_area(vec2_model(q), w, h));
            lemma_paint_points_len(data0, w, path.take(i as int), color);
            lemma_paint_points_snoc(data0, w, path.take(i as int), path[i as int], color);
            assert(path.take(i as int).push(path[i as int]) =~= path.take(i as int + 1));
        }
        buf.put(q, color);
        i = i + 1;
    }
    proof {
        assert(path.take(path.len() as int) =~= path);
    }
}

/// An exact rational scale factor: glyph units are multiplied by
/// `num / den`.
#[derive(Clone, Copy, Debug)]
pub struct Scale {
    /// Numerator; never negative.
    pub num: i64,
    /// Denominator; at least one.
    pub den: i64,
}

impl Scale {
    /// The factor scales by a well-defined non-negative ratio.
    pub open spec fn wf(&self) -> bool {
        self.num >= 0 && self.den >= 1
    }
}

/// `v * num / den` rounded to the nearest integer, an exact half falling
/// away from zero.
pub open spec fn round_scale(v: int, num: int, den: int) -> int {
    let prod = v * num;
    if prod >= 0 {
        (2 * prod + den) / (2 * den)
    } else {
        -((2 * (-prod) + den) / (2 * den))
    }
}

/// `v * num / den` truncated toward zero.
pub open spec fn trunc_scale(v: int, num: int, den: int) -> int {
    let prod = v * num;
    if prod >= 0 {
        prod / den
    } else {
        -((-prod) / den)
    }
}

/// Where a glyph point `v` lands on the device: its rounded scaling, moved
/// to the glyph's origin.
pub open spec fn device_point(v: (int, int), origin: (int, int), num: int, den: int) -> (int, int) {
    (origin.0 + round_scale(v.0, num, den), origin.1 + round_scale(v.1, num, den))
}

/// Runtime value of [`round_scale`] for a bounded glyph unit.
fn scale_round(v: i128, num: i64, den: i64) -> (r: i128)
    requires
        num >= 0,
        den >= 1,
        -0x40_0000_0000_0000 <= v <= 0x40_0000_0000_0000,
    ensures
        r as int == round_scale(v as int, num as int, den as int),
{
    let nu: u128 = num as u128;
    let de: u128 = den as u128;
    if v >= 0 {
        let vv: u128 = v as u128;
        proof {
            vstd::arithmetic::mul::lemma_mul_upper_bound(
                vv as int,
                0x40_0000_0000_0000,
                nu as int,
                0x8000_0000_0000_0000,
            );
        }
        let prod: u128 = vv * nu;
        proof {
            vstd::arithmetic::div_mod::lemma_div_nonincreasing(
                2 * (prod as int) + de as int,
                2 * (de as int),
            );
            vstd::arithmetic::div_mod::lemma_div_pos_is_pos(
                2 * (prod as int) + de as int,
                2 * (de as int),
            );
            assert(vv * nu == (v as int) * (num as int)) by (nonlinear_arith)
                requires
                    v >= 0 && nu == num as int && vv == v as int,
            ;
        }
        let q: u128 = (2 * prod + de) / (2 * de);
        q as i128
    } else {
        let vv: u128 = (-v) as u128;
        proof {
            vstd::arithmetic::mul::lemma_mul_upper_bound(
                vv as int,
                0x40_0000_0000_0000,
                nu as int,
                0x8000_0000_0000_0000,
            );
        }
        let prod: u128 = vv * nu;
        proof {
            vstd::arithmetic::div_mod::lemma_div_nonincreasing(
                2 * (prod as int) + de as int,
                2 * (de as int),
            );
            vstd::arithmetic::div_mod::lemma_div_pos_is_pos(
                2 * (prod as int) + de as int,
                2 * (de as int),
            );
            assert(vv * nu == -((v as int) * (num as int))) by (nonlinear_arith)
                requires
                    v < 0 && nu == num as int && vv == -(v as int),
            ;
            assert(nu == 0 || vv * nu >= 1) by (nonlinear_arith)
                requires
                    vv >= 1 && nu >= 0,
            ;
            if nu == 0 {
                vstd::arithmetic::div_mod::lemma_basic_div(de as int, 2 * (de as int));
            }
        }
        let q: u128 = (2 * prod + de) / (2 * de);
        -(q as i128)
    }
}

/// Runtime value of [`trunc_scale`] for a bounded layout offset.
fn scale_trunc(v: i128, num: i64, den: i64) -> (r: i128)
    requires
        num >= 0,
        den >= 1,
        -0x40_0000_0000_0000 <= v <= 0x40_0000_0000_0000,
    ensures
        r as int == trunc_scale(v as int, num as int, den as int),
{
    let nu: u128 = num as u128;
    let de: u128 = den as u128;
    if v >= 0 {
        let vv: u128 = v as u128;
        proof {
            vstd::arithmetic::mul::lemma_mul_upper_bound(
                vv as int,
                0x40_0000_0000_0000,
                nu as int,
                0x8000_0000_0000_0000,
            );
        }
        let prod: u128 = vv * nu;
        proof {
            vstd::arithmetic::div_mod::lemma_div_nonincreasing(prod as int, de as int);
            vstd::arithmetic::div_mod::lemma_div_pos_is_pos(prod as int, de as int);
            assert(vv * nu == (v as int) * (num as int)) by (nonlinear_arith)
                requires
                    v >= 0 && nu == num as int && vv == v as int,
            ;
        }
        let q: u128 = prod / de;
        q as i128
    } else {
        let vv: u128 = (-v) as u128;
        proof {
            vstd::arithmetic::mul::lemma_mul_upper_bound(
                vv as int,
                0x40_0000_0000_0000,
                nu as int,
                0x8000_0000_0000_0000,
            );
        }
        let prod: u128 = vv * nu;
        proof {
            vstd::arithmetic::div_mod::lemma_div_nonincreasing(prod as int, de as int);
            vstd::arithmetic::div_mod::lemma_div_pos_is_pos(prod as int, de as int);
            assert(vv * nu == -((v as int) * (num as int))) by (nonlinear_arith)
                requires
                    v < 0 && nu == num as int && vv == -(v as int),
            ;
        }
        let q: u128 = prod / de;
        -(q as i128)
    }
}

/// The scaled value is no larger than the product it rounds.
proof fn lemma_scale_bounds(v: int, num: int, den: int)
    requires
        num >= 0,
        den >= 1,
    ensures
        -(crate::raster::iabs(v) * num + 1) <= round_scale(v, num, den) <= crate::raster::iabs(v)
            * num + 1,
        -(crate::raster::iabs(v) * num) <= trunc_scale(v, num, den) <= crate::raster::iabs(v)
            * num,
{
    let prod = v * num;
    let mag = crate::raster::iabs(v) * num;
    assert(prod == mag || prod == -mag) by (nonlinear_arith)
        requires
            mag == crate::raster::iabs(v) * num && prod == v * num,
    ;
    assert(mag >= 0) by (nonlinear_arith)
        requires
            num >= 0 && crate::raster::iabs(v) >= 0 && mag == crate::raster::iabs(v) * num,
    ;
    assert((2 * mag + den) / (2 * den) <= mag + 1) by {
        assert(2 * mag + den <= 2 * den * (mag + 1)) by (nonlinear_arith)
            requires
                den >= 1 && mag >= 0,
        ;
        assert(2 * den * (mag + 1) == (mag + 1) * (2 * den) + 0) by (nonlinear_arith);
        vstd::arithmetic::div_mod::lemma_fundamental_div_mod_converse_div(
            2 * den * (mag + 1),
            2 * den,
            mag + 1,
            0,
        );
        vstd::arithmetic::div_mod::lemma_div_is_ordered(2 * mag + den, 2 * den * (mag + 1), 2 * den);
    }
    vstd::arithmetic::div_mod::lemma_div_pos_is_pos(2 * mag + den, 2 * den);
    assert(mag / den <= mag) by {
        vstd::arithmetic::div_mod::lemma_div_nonincreasing(mag, den);
    }
    vstd::arithmetic::div_mod::lemma_div_pos_is_pos(mag, den);
}

/// The mathematical value of the pen cursor.
spec fn cursor_model(p: Option<(i128, i128)>) -> Option<(int, int)> {
    match p {
        Some(q) => Some((q.0 as int, q.1 as int)),
        None => None,
    }
}

/// Pixel data after one glyph's stroke list is walked with pen cursor
/// `prev`: each drawable point becomes a device point, each consecutive pair
/// of device points inside the area paints its traced segment, a pair with
/// either end outside paints nothing, and a pen lift clears the cursor.
pub open spec fn glyph_paint(
    data: Seq<u32>,
    w: int,
    h: int,
    strokes: Seq<Option<(int, int)>>,
    prev: Option<(int, int)>,
    origin: (int, int),
    num: int,
    den: int,
    color: u32,
) -> Seq<u32>
    decreases strokes.len(),
{
    if strokes.len() == 0 {
        data
    } else {
        match strokes[0] {
            None => glyph_paint(data, w, h, strokes.drop_first(), None, origin, num, den, color),
            Some(v) => {
                let dv = device_point(v, origin, num, den);
                let data2 = if prev is Some && in_area(prev->0, w, h) && in_area(dv, w, h) {
                    paint_points(data, w, line_points(prev->0, dv), color)
                } else {
                    data
                };
                glyph_paint(data2, w, h, strokes.drop_first(), Some(dv), origin, num, den, color)
            },
        }
    }
}

/// Walk one glyph's strokes from a wide origin, painting each in-area
/// segment between consecutive device points.
fn draw_glyph_at(buf: &mut PixelBuffer, chr: &HersheyChar, origin: (i128, i128), s: Scale, color: u32)
    requires
        old(buf).wf(),
        s.wf(),
        -0x1_0000_0000_0000_0000_0000_0000_0000 <= origin.0 <= 0x1_0000_0000_0000_0000_0000_0000_0000,
        -0x1_0000_0000_0000_0000_0000_0000_0000 <= origin.1 <= 0x1_0000_0000_0000_0000_0000_0000_0000,
    ensures
        final(buf).wf(),
        final(buf).spec_width() == old(buf).spec_width(),
        final(buf).spec_height() == old(buf).spec_height(),
        final(buf).spec_data() == glyph_paint(
            old(buf).spec_data(),
            old(buf).spec_width(),
            old(buf).spec_height(),
            chr@.vertex_data,
            None::<(int, int)>,
            (origin.0 as int, origin.1 as int),
            s.num as int,
            s.den as int,
            color,
        ),
{
    let ghost w = buf.spec_width();
    let ghost h = buf.spec_height();
    let ghost data0 = buf.spec_data();
    let ghost strokes = chr@.vertex_data;
    let ghost org = (origin.0 as int, origin.1 as int);
    let width = buf.width();
    let height = buf.height();
    let mut prev: Option<(i128, i128)> = None;
    let n = chr.vertex_data.len();
    let mut i: usize = 0;
    proof {
        assert(strokes.skip(0) =~= strokes);
    }
    while i < n
        invariant
            i <= n,
            n == chr.vertex_data@.len(),
            strokes == chr@.vertex_data,
            strokes.len() == n,
            buf.wf(),
            buf.spec_width() == w,
            buf.spec_height() == h,
            width == w,
            height == h,
            s.wf(),
            org == (origin.0 as int, origin.1 as int),
            -0x1_0000_0000_0000_0000_0000_0000_0000 <= origin.0
                <= 0x1_0000_0000_0000_0000_0000_0000_0000,
            -0x1_0000_0000_0000_0000_0000_0000_0000 <= origin.1
                <= 0x1_0000_0000_0000_0000_0000_0000_0000,
            data0 == old(buf).spec_data(),
            glyph_paint(data0, w, h, strokes, None::<(int, int)>, org, s.num as int, s.den as int, color)
                == glyph_paint(
                buf.spec_data(),
                w,
                h,
                strokes.skip(i as int),
                cursor_model(prev),
                org,
                s.num as int,
                s.den as int,
                color,
            ),
        decreases n - i,
    {
        let ghost pm = cursor_model(prev);
        let ghost rest = strokes.skip(i as int);
        proof {
            assert(rest[0] == strokes[i as int]);
            assert(rest.drop_first() =~= strokes.skip(i as int + 1));
            assert(strokes[i as int] == crate::reader::entry_model(chr.vertex_data@[i as int]));
        }
        match chr.vertex_data[i] {
            None => {
                prev = None;
            },
            Some(v) => {
                proof {
                    lemma_scale_bounds(v.0 as int, s.num as int, s.den as int);
                    lemma_scale_bounds(v.1 as int, s.num as int, s.den as int);
                    vstd::arithmetic::mul::lemma_mul_upper_bound(
                        crate::raster::iabs(v.0 as int),
                        128,
                        s.num as int,
                        0x7fff_ffff_ffff_ffff,
                    );
                    vstd::arithmetic::mul::lemma_mul_upper_bound(
                        crate::raster::iabs(v.1 as int),
                        128,
                        s.num as int,
                        0x7fff_ffff_ffff_ffff,
                    );
                }
                let dvx: i128 = origin.0 + scale_round(v.0 as i128, s.num, s.den);
                let dvy: i128 = origin.1 + scale_round(v.1 as i128, s.num, s.den);
                let ghost dv = device_point((v.0 as int, v.1 as int), org, s.num as int, s.den as int);
                proof {
                    assert((dvx as int, dvy as int) == dv);
                }
                if let Some(q) = prev {
                    let q_in: bool = q.0 >= 0 && q.0 < width as i128 && q.1 >= 0 && q.1
                        < height as i128;
                    let dv_in: bool = dvx >= 0 && dvx < width as i128 && dvy >= 0 && dvy
                        < height as i128;
                    if q_in && dv_in {
                        draw_line(buf, (q.0 as i64, q.1 as i64), (dvx as i64, dvy as i64), color);
                    }
                }
                prev = Some((dvx, dvy));
            },
        }
        i = i + 1;
    }
    proof {
        assert(strokes.skip(n as int) =~= Seq::<Option<(int, int)>>::empty());
    }
}

/// Paint one glyph: each stroke entry in order, drawable points joined by
/// traced segments from the previous device point, pen lifts breaking the
/// chain, and any segment with an endpoint outside the buffer dropped whole.
/// A point's device position is its glyph coordinates scaled by `s` with
/// rounding to the nearest pixel, offset by `p`.
pub fn draw_hershey_char(buf: &mut PixelBuffer, chr: &HersheyChar, p: Vec2, s: Scale, color: u32)
    requires
        old(buf).wf(),
        s.wf(),
    ensures
        final(buf).wf(),
        final(buf).spec_width() == old(buf).spec_width(),
        final(buf).spec_height() == old(buf).spec_height(),
        final(buf).spec_data() == glyph_paint(
            old(buf).spec_data(),
            old(buf).spec_width(),
            old(buf).spec_height(),
            chr@.vertex_data,
            None::<(int, int)>,
            vec2_model(p),
            s.num as int,
            s.den as int,
            color,
        ),
{
    draw_glyph_at(buf, chr, (p.0 as i128, p.1 as i128), s, color);
}


/// Which font slot a character names: its code point's distance above the
/// space character, floored at the first slot.
pub open spec fn glyph_index(c: char) -> int {
    if (c as u32) < 32 {
        0
    } else {
        (c as u32) - 32
    }
}

/// Where the layout cursor stands after walking `s` from `ofs`: a newline
/// returns the horizontal offset to zero and drops the vertical offset by
/// one line unit of 32; a character with a glyph advances horizontally by
/// that glyph's bearing width; a character beyond the font moves nothing.
pub open spec fn advance_offsets(font: Seq<HersheyChar>, s: Seq<char>, ofs: (int, int)) -> (int, int)
    decreases s.len(),
{
    if s.len() == 0 {
        ofs
    } else {
        let rest = s.drop_first();
        if s[0] == '\n' {
            advance_offsets(font, rest, (0, ofs.1 + 32))
        } else {
            let gi = glyph_index(s[0]);
            if 0 <= gi < font.len() {
                advance_offsets(
                    font,
                    rest,
                    (ofs.0 + font[gi]@.right_hand - font[gi]@.left_hand, ofs.1),
                )
            } else {
                advance_offsets(font, rest, ofs)
            }
        }
    }
}

/// Pixel data after the text `s` is laid out from cursor `ofs` and painted:
/// each glyph is painted at the cursor's device position, corrected left by
/// its own left bearing and scaled with truncation, and the cursor advances
/// as [`advance_offsets`] says.
pub open spec fn text_paint(
    data: Seq<u32>,
    w: int,
    h: int,
    font: Seq<HersheyChar>,
    s: Seq<char>,
    ofs: (int, int),
    origin: (int, int),
    num: int,
    den: int,
    color: u32,
) -> Seq<u32>
    decreases s.len(),
{
    if s.len() == 0 {
        data
    } else {
        let rest = s.drop_first();
        if s[0] == '\n' {
            text_paint(data, w, h, font, rest, (0, ofs.1 + 32), origin, num, den, color)
        } else {
            let gi = glyph_index(s[0]);
            if 0 <= gi < font.len() {
                let g = font[gi];
                let gpos = (
                    origin.0 + trunc_scale(ofs.0 - g@.left_hand, num, den),
                    origin.1 + trunc_scale(ofs.1, num, den),
                );
                let data2 = glyph_paint(
                    data,
                    w,
                    h,
                    g@.vertex_data,
                    None::<(int, int)>,
                    gpos,
                    num,
                    den,
                    color,
                );
                text_paint(
                    data2,
                    w,
                    h,
                    font,
                    rest,
                    (ofs.0 + g@.right_hand - g@.left_hand, ofs.1),
                    origin,
                    num,
                    den,
                    color,
                )
            } else {
                text_paint(data, w, h, font, rest, ofs, origin, num, den, color)
            }
        }
    }
}

/// Lay out and paint `st` glyph by glyph from `p`, and say where the cursor
/// ended. A newline starts the next line, a character without a glyph in the
/// font is skipped with no advance, and every painted pixel is what
/// [`text_paint`] paints. The length bound keeps the cursor's offsets within
/// device range.
pub fn draw_hershey_str(
    buf: &mut PixelBuffer,
    font: &Vec<HersheyChar>,
    st: &str,
    p: Vec2,
    s: Scale,
    color: u32,
) -> (ofs: Vec2)
    requires
        old(buf).wf(),
        s.wf(),
        st@.len() <= 0x1_0000_0000,
    ensures
        final(buf).wf(),
        final(buf).spec_width() == old(buf).spec_width(),
        final(buf).spec_height() == old(buf).spec_height(),
        final(buf).spec_data() == text_paint(
            old(buf).spec_data(),
            old(buf).spec_width(),
            old(buf).spec_height(),
            font@,
            st@,
            (0, 0),
            vec2_model(p),
            s.num as int,
            s.den as int,
            color,
        ),
        vec2_model(ofs) == advance_offsets(font@, st@, (0, 0)),
{
    let ghost w = buf.spec_width();
    let ghost h = buf.spec_height();
    let ghost data0 = buf.spec_data();
    let ghost org = vec2_model(p);
    let chars = crate::reader::collect_chars(st);
    let n = chars.len();
    let mut ofs0: i64 = 0;
    let mut ofs1: i64 = 0;
    let mut i: usize = 0;
    proof {
        assert(st@.skip(0) =~= st@);
    }
    while i < n
        invariant
            i <= n,
            n == st@.len() <= 0x1_0000_0000,
            chars@ == st@,
            buf.wf(),
            buf.spec_width() == w,
            buf.spec_height() == h,
            s.wf(),
            org == vec2_model(p),
            data0 == old(buf).spec_data(),
            -255 * (i as int) <= ofs0 <= 255 * (i as int),
            0 <= ofs1 <= 32 * (i as int),
            text_paint(data0, w, h, font@, st@, (0, 0), org, s.num as int, s.den as int, color)
                == text_paint(
                buf.spec_data(),
                w,
                h,
                font@,
                st@.skip(i as int),
                (ofs0 as int, ofs1 as int),
                org,
                s.num as int,
                s.den as int,
                color,
            ),
            advance_offsets(font@, st@, (0, 0)) == advance_offsets(
                font@,
                st@.skip(i as int),
                (ofs0 as int, ofs1 as int),
            ),
        decreases n - i,
    {
        let ghost rest = st@.skip(i as int);
        proof {
            assert(rest[0] == st@[i as int]);
            assert(rest.drop_first() =~= st@.skip(i as int + 1));
        }
        let c = chars[i];
        if c == '\n' {
            ofs0 = 0;
            ofs1 = ofs1 + 32;
        } else {
            let u: u32 = c as u32;
            let gi: usize = if u < 32 {
                0
            } else {
                (u - 32) as usize
            };
            proof {
                assert(gi as int == glyph_index(c));
            }
            if gi < font.len() {
                let g = &font[gi];
                let vx: i128 = (ofs0 as i128) - (g.left_hand as i128);
                let vy: i128 = ofs1 as i128;
                proof {
                    lemma_scale_bounds(vx as int, s.num as int, s.den as int);
                    lemma_scale_bounds(vy as int, s.num as int, s.den as int);
                    vstd::arithmetic::mul::lemma_mul_upper_bound(
                        crate::raster::iabs(vx as int),
                        0x200_0000_0000,
                        s.num as int,
                        0x7fff_ffff_ffff_ffff,
                    );
                    vstd::arithmetic::mul::lemma_mul_upper_bound(
                        crate::raster::iabs(vy as int),
                        0x200_0000_0000,
                        s.num as int,
                        0x7fff_ffff_ffff_ffff,
                    );
                }
                let gx: i128 = (p.0 as i128) + scale_trunc(vx, s.num, s.den);
                let gy: i128 = (p.1 as i128) + scale_trunc(vy, s.num, s.den);
                draw_glyph_at(buf, g, (gx, gy), s, color);
                ofs0 = ofs0 + (g.right_hand as i64) - (g.left_hand as i64);
            }
        }
        i = i + 1;
    }
    proof {
        assert(st@.skip(n as int) =~= Seq::<char>::empty());
    }
    (ofs0, ofs1)
}

/// Layout composes: walking the text `s1 + s2` from any cursor is walking
/// `s1`, then walking `s2` from where `s1` ended. With [`lemma_text_paint_split`]
/// this is the layout's associativity: one call on the whole text and two
/// consecutive calls place every glyph identically.
pub proof fn lemma_advance_split(
    font: Seq<HersheyChar>,
    s1: Seq<char>,
    s2: Seq<char>,
    ofs: (int, int),
)
    ensures
        advance_offsets(font, s1 + s2, ofs) == advance_offsets(
            font,
            s2,
            advance_offsets(font, s1, ofs),
        ),
    decreases s1.len(),
{
    if s1.len() == 0 {
        assert(s1 + s2 =~= s2);
    } else {
        let joined = s1 + s2;
        assert(joined[0] == s1[0]);
        assert(joined.drop_first() =~= s1.drop_first() + s2);
        if s1[0] == '\n' {
            lemma_advance_split(font, s1.drop_first(), s2, (0, ofs.1 + 32));
        } else {
            let gi = glyph_index(s1[0]);
            if 0 <= gi < font.len() {
                lemma_advance_split(
                    font,
                    s1.drop_first(),
                    s2,
                    (ofs.0 + font[gi]@.right_hand - font[gi]@.left_hand, ofs.1),
                );
            } else {
                lemma_advance_split(font, s1.drop_first(), s2, ofs);
            }
        }
    }
}

/// Painting composes the same way the cursor does: painting `s1 + s2` from a
/// cursor paints `s1`, then paints `s2` on the result from the cursor where
/// `s1` ended.
pub proof fn lemma_text_paint_split(
    data: Seq<u32>,
    w: int,
    h: int,
    font: Seq<HersheyChar>,
    s1: Seq<char>,
    s2: Seq<char>,
    ofs: (int, int),
    origin: (int, int),
    num: int,
    den: int,
    color: u32,
)
    ensures
        text_paint(data, w, h, font, s1 + s2, ofs, origin, num, den, color) == text_paint(
            text_paint(data, w, h, font, s1, ofs, origin, num, den, color),
            w,
            h,
            font,
            s2,
            advance_offsets(font, s1, ofs),
            origin,
            num,
            den,
            color,
        ),
    decreases s1.len(),
{
    if s1.len() == 0 {
        assert(s1 + s2 =~= s2);
    } else {
        let joined = s1 + s2;
        assert(joined[0] == s1[0]);
        assert(joined.drop_first() =~= s1.drop_first() + s2);
        if s1[0] == '\n' {
            lemma_text_paint_split(
                data,
                w,
                h,
                font,
                s1.drop_first(),
                s2,
                (0, ofs.1 + 32),
                origin,
                num,
                den,
                color,
            );
        } else {
            let gi = glyph_index(s1[0]);
            if 0 <= gi < font.len() {
                let g = font[gi];
                let gpos = (
                    origin.0 + trunc_scale(ofs.0 - g@.left_hand, num, den),
                    origin.1 + trunc_scale(ofs.1, num, den),
                );
                let data2 = glyph_paint(
                    data,
                    w,
                    h,
                    g@.vertex_data,
                    None::<(int, int)>,
                    gpos,
                    num,
                    den,
                    color,
                );
                lemma_text_paint_split(
                    data2,
                    w,
                    h,
                    font,
                    s1.drop_first(),
                    s2,
                    (ofs.0 + g@.right_hand - g@.left_hand, ofs.1),
                    origin,
                    num,
                    den,
                    color,
                );
            } else {
                lemma_text_paint_split(
                    data,
                    w,
                    h,
                    font,
                    s1.drop_first(),
                    s2,
                    ofs,
                    origin,
                    num,
                    den,
                    color,
                );
            }
        }
    }
}

/// Without a newline the walk only slides: starting anywhere, the horizontal
/// advance over `s` is what it is from zero, and the vertical offset stays.
pub proof fn lemma_advance_shift(font: Seq<HersheyChar>, s: Seq<char>, ofs: (int, int))
    requires
        forall|i: int| 0 <= i < s.len() ==> s[i] != '\n',
    ensures
        advance_offsets(font, s, ofs).0 == ofs.0 + advance_offsets(font, s, (0, 0)).0,
        advance_offsets(font, s, ofs).1 == ofs.1,
    decreases s.len(),
{
    if s.len() > 0 {
        let rest = s.drop_first();
        assert(forall|i: int| 0 <= i < rest.len() ==> #[trigger] rest[i] == s[i + 1]);
        let gi = glyph_index(s[0]);
        if 0 <= gi < font.len() {
            let adv = font[gi]@.right_hand - font[gi]@.left_hand;
            lemma_advance_shift(font, rest, (ofs.0 + adv, ofs.1));
            lemma_advance_shift(font, rest, (adv, 0));
        } else {
            lemma_advance_shift(font, rest, ofs);
            lemma_advance_shift(font, rest, (0, 0));
        }
    }
}

/// The horizontal advance of drawn text adds over concatenation: as long as
/// the second text starts no new line, laying out `s1 + s2` advances exactly
/// as far as laying out `s1` and `s2` separately together.
pub proof fn lemma_advance_additive(font: Seq<HersheyChar>, s1: Seq<char>, s2: Seq<char>)
    requires
        forall|i: int| 0 <= i < s2.len() ==> s2[i] != '\n',
    ensures
        advance_offsets(font, s1 + s2, (0, 0)).0 == advance_offsets(font, s1, (0, 0)).0
            + advance_offsets(font, s2, (0, 0)).0,
{
    lemma_advance_split(font, s1, s2, (0, 0));
    lemma_advance_shift(font, s2, advance_offsets(font, s1, (0, 0)));
}

} // verus!
