//! Bounds-checked pixel surface over a linear framebuffer.
//!
//! The surface owns a mutable view of the backing pixel memory: `stride`
//! pixels per scanline, `height` scanlines, of which only the leftmost
//! `width` columns are visible. Every write validates its bounds before any
//! index is computed; the linear offset of `(x, y)` is `x + y * stride`, so
//! the padding columns between `width` and `stride` are never written.

use vstd::arithmetic::div_mod::lemma_fundamental_div_mod_converse;
use vstd::prelude::*;

verus! {

/// Failures of the surface: a write target outside the bounds, or a
/// degenerate (inverted or empty) rectangle.
#[derive(Clone, Copy, Debug, PartialEq, Eq, Structural)]
pub enum SurfaceError {
    BoundsError,
    InvalidRectangle,
}

/// One pixel: a 3-byte color triple, no alpha.
#[derive(Clone, Copy, Debug, PartialEq, Eq, Structural)]
pub struct Color {
    pub r: u8,
    pub g: u8,
    pub b: u8,
}

/// An axis-aligned rectangle given by its top-left corner and its extent.
#[derive(Clone, Copy, Debug, PartialEq, Eq, Structural)]
pub struct Rect {
    pub x: usize,
    pub y: usize,
    pub width: usize,
    pub height: usize,
}

/// One positioned pixel write, as handed to the per-pixel draw entry point.
#[derive(Clone, Copy, Debug, PartialEq, Eq, Structural)]
pub struct PixelOp {
    pub x: usize,
    pub y: usize,
    pub color: Color,
}

/// The widest scanline the surface supports; display modes are chosen so
/// that the visible width never exceeds it.
pub const MAX_ROW_WIDTH: usize = 1920;

/// The surface: owned pixel memory plus the resolution and stride fixed at
/// mode selection.
pub struct Screen {
    pixels: Vec<Color>,
    width: usize,
    height: usize,
    stride: usize,
}

impl Screen {
    /// The backing pixel memory, row-major with `stride` pixels per row.
    pub closed spec fn pixels_spec(self) -> Seq<Color> {
        self.pixels@
    }

    /// Visible width in pixels.
    pub closed spec fn width_spec(self) -> usize {
        self.width
    }

    /// Visible height in pixels.
    pub closed spec fn height_spec(self) -> usize {
        self.height
    }

    /// Pixels per scanline in the backing memory; at least the width.
    pub closed spec fn stride_spec(self) -> usize {
        self.stride
    }

    /// Structural invariant: the stride covers the visible width, the width
    /// fits the supported maximum, and the backing memory holds exactly
    /// `stride * height` pixels.
    pub open spec fn wf(self) -> bool {
        &&& self.width_spec() <= self.stride_spec()
        &&& self.width_spec() <= MAX_ROW_WIDTH
        &&& self.pixels_spec().len() == self.stride_spec() * self.height_spec()
    }

    /// The pixel stored at `(x, y)`.
    pub open spec fn pixel_at(self, x: int, y: int) -> Color {
        self.pixels_spec()[x + y * self.stride_spec()]
    }

    /// The bounds test: strict (`<`) for actual writes, inclusive (`<=`) for
    /// the corners of half-open rectangles.
    pub open spec fn in_bounds_spec(self, x: int, y: int, strict: bool) -> bool {
        if strict {
            x < self.width_spec() && y < self.height_spec()
        } else {
            x <= self.width_spec() && y <= self.height_spec()
        }
    }

    /// Dimensions carried over unchanged by a write.
    pub open spec fn same_dims(self, other: Screen) -> bool {
        &&& self.width_spec() == other.width_spec()
        &&& self.height_spec() == other.height_spec()
        &&& self.stride_spec() == other.stride_spec()
    }

    /// A surface of the given geometry with every pixel black. Refused when
    /// the stride does not cover the width, the width exceeds the supported
    /// maximum, or the backing memory would not be addressable.
    pub fn new(width: usize, height: usize, stride: usize) -> (r: Option<Screen>)
        ensures
            match r {
                Some(s) => {
                    &&& s.wf()
                    &&& s.width_spec() == width
                    &&& s.height_spec() == height
                    &&& s.stride_spec() == stride
                    &&& forall|i: int|
                        0 <= i < s.pixels_spec().len() ==> s.pixels_spec()[i] == (Color {
                            r: 0,
                            g: 0,
                            b: 0,
                        })
                },
                None => width > stride || width > MAX_ROW_WIDTH || stride * height > usize::MAX,
            },
    {
        if width > stride || width > MAX_ROW_WIDTH {
            return None;
        }
        let n = match stride.checked_mul(height) {
            Some(n) => n,
            None => {
                return None;
            },
        };
        let mut pixels: Vec<Color> = Vec::new();
        let mut k: usize = 0;
        while k < n
            invariant
                k <= n,
                pixels@.len() == k,
                forall|i: int| 0 <= i < k ==> pixels@[i] == (Color { r: 0, g: 0, b: 0 }),
            decreases n - k,
        {
            pixels.push(Color { r: 0, g: 0, b: 0 });
            k = k + 1;
        }
        Some(Screen { pixels, width, height, stride })
    }

    /// Visible width in pixels.
    pub fn width(&self) -> (r: usize)
        ensures
            r == self.width_spec(),
    {
        self.width
    }

    /// Visible height in pixels.
    pub fn height(&self) -> (r: usize)
        ensures
            r == self.height_spec(),
    {
        self.height
    }

    /// Pixels per scanline in the backing memory.
    pub fn stride(&self) -> (r: usize)
        ensures
            r == self.stride_spec(),
    {
        self.stride
    }

    /// Read back one pixel of the backing memory (padding columns included).
    pub fn get_pixel(&self, x: usize, y: usize) -> (r: Color)
        requires
            self.wf(),
            x < self.stride_spec(),
            y < self.height_spec(),
        ensures
            r == self.pixel_at(x as int, y as int),
    {
        let len = self.pixels.len();
        proof {
            lemma_pixel_index_bounds(
                self.stride_spec() as int,
                self.height_spec() as int,
                x as int,
                y as int,
            );
        }
        self.pixels[x + y * self.stride]
    }

    /// The bounds test the write entry points use.
    pub fn in_bounds(&self, x: usize, y: usize, strict: bool) -> (r: bool)
        ensures
            r == self.in_bounds_spec(x as int, y as int, strict),
    {
        if strict {
            x < self.width && y < self.height
        } else {
            x <= self.width && y <= self.height
        }
    }

    /// Write one pixel. Succeeds exactly when `(x, y)` is strictly inside
    /// the visible bounds; a rejected write leaves the memory untouched.
    pub fn write_pixel(&mut self, x: usize, y: usize, pixel: Color) -> (r: Result<
        (),
        SurfaceError,
    >)
        requires
            old(self).wf(),
        ensures
            final(self).wf(),
            old(self).same_dims(*final(self)),
            match r {
                Ok(_) => {
                    &&& old(self).in_bounds_spec(x as int, y as int, true)
                    &&& final(self).pixels_spec() == old(self).pixels_spec().update(
                        x + y * old(self).stride_spec(),
                        pixel,
                    )
                },
                Err(e) => {
                    &&& e == SurfaceError::BoundsError
                    &&& !old(self).in_bounds_spec(x as int, y as int, true)
                    &&& final(self).pixels_spec() == old(self).pixels_spec()
                },
            },
    {
        if self.in_bounds(x, y, true) {
            let len = self.pixels.len();
            proof {
                lemma_pixel_index_bounds(
                    self.stride_spec() as int,
                    self.height_spec() as int,
                    x as int,
                    y as int,
                );
            }
            let idx = x + y * self.stride;
            self.pixels.set(idx, pixel);
            Ok(())
        } else {
            Err(SurfaceError::BoundsError)
        }
    }

    /// Fill a rectangle. With `strict` the rectangle is half-open (columns
    /// `[min.0, max.0)`, rows `[min.1, max.1)`) and the corners are checked
    /// against the inclusive bound, so `max` may name the width and height
    /// exactly; without `strict` it is closed (columns `[min.0, max.0]`,
    /// rows `[min.1, max.1]`) and the corners must lie strictly inside. A
    /// rectangle without `max.0 > min.0` and `max.1 > min.1` is rejected as
    /// `InvalidRectangle`, a corner out of bounds as `BoundsError`; either
    /// rejection leaves the memory untouched. The result equals what the
    /// same writes through `write_pixel`, one pixel at a time, would leave.
    pub fn rectangle(
        &mut self,
        min: (usize, usize),
        max: (usize, usize),
        pixel: Color,
        strict: bool,
    ) -> (r: Result<(), SurfaceError>)
        requires
            old(self).wf(),
        ensures
            final(self).wf(),
            old(self).same_dims(*final(self)),
            final(self).pixels_spec().len() == old(self).pixels_spec().len(),
            match r {
                Ok(_) => {
                    &&& min.0 < max.0 && min.1 < max.1
                    &&& old(self).in_bounds_spec(min.0 as int, min.1 as int, !strict)
                    &&& old(self).in_bounds_spec(max.0 as int, max.1 as int, !strict)
                    &&& forall|px: int, py: int|
                        0 <= px < old(self).stride_spec() && 0 <= py < old(self).height_spec()
                            ==> final(self).pixel_at(px, py) == (if min.0 <= px < rect_hi(
                            max.0 as int,
                            strict,
                        ) && min.1 <= py < rect_hi(max.1 as int, strict) {
                            pixel
                        } else {
                            old(self).pixel_at(px, py)
                        })
                },
                Err(e) => {
                    &&& final(self).pixels_spec() == old(self).pixels_spec()
                    &&& (e == SurfaceError::InvalidRectangle <==> (max.0 <= min.0 || max.1
                        <= min.1))
                    &&& (e == SurfaceError::BoundsError ==> !(old(self).in_bounds_spec(
                        min.0 as int,
                        min.1 as int,
                        !strict,
                    ) && old(self).in_bounds_spec(max.0 as int, max.1 as int, !strict)))
                },
            },
    {
        if !(max.0 > min.0 && max.1 > min.1) {
            return Err(SurfaceError::InvalidRectangle);
        }
        if !(self.in_bounds(min.0, min.1, !strict) && self.in_bounds(max.0, max.1, !strict)) {
            return Err(SurfaceError::BoundsError);
        }
        let hi_x = if strict {
            max.0
        } else {
            max.0 + 1
        };
        let hi_y = if strict {
            max.1
        } else {
            max.1 + 1
        };
        let len = self.pixels.len();
        let stride = self.stride;
        let width = self.width;
        let height = self.height;
        let mut y = min.1;
        while y < hi_y
            invariant
                self.wf(),
                old(self).same_dims(*self),
                stride == self.stride_spec(),
                width == self.width_spec(),
                height == self.height_spec(),
                len == self.pixels_spec().len(),
                min.1 <= y <= hi_y,
                min.0 < hi_x,
                hi_x <= width,
                min.1 < hi_y,
                hi_y <= height,
                forall|px: int, py: int|
                    0 <= px < stride && 0 <= py < height ==> self.pixel_at(px, py) == (if min.0
                        <= px < hi_x && min.1 <= py < y {
                        pixel
                    } else {
                        old(self).pixel_at(px, py)
                    }),
            decreases hi_y - y,
        {
            let mut x = min.0;
            while x < hi_x
                invariant
                    self.wf(),
                    old(self).same_dims(*self),
                    stride == self.stride_spec(),
                    width == self.width_spec(),
                    height == self.height_spec(),
                    len == self.pixels_spec().len(),
                    min.0 <= x <= hi_x,
                    min.1 <= y < hi_y,
                    min.0 < hi_x,
                    hi_x <= width,
                    hi_y <= height,
                    forall|px: int, py: int|
                        0 <= px < stride && 0 <= py < height ==> self.pixel_at(px, py) == (if (
                        min.0 <= px < hi_x && min.1 <= py < y) || (py == y && min.0 <= px < x) {
                            pixel
                        } else {
                            old(self).pixel_at(px, py)
                        }),
                decreases hi_x - x,
            {
                proof {
                    lemma_pixel_index_bounds(stride as int, height as int, x as int, y as int);
                }
                let ghost prev = *self;
                let idx = x + y * stride;
                self.pixels.set(idx, pixel);
                proof {
                    assert forall|px: int, py: int|
                        0 <= px < stride && 0 <= py < height implies self.pixel_at(px, py) == (if (
                    min.0 <= px < hi_x && min.1 <= py < y) || (py == y && min.0 <= px < x + 1) {
                        pixel
                    } else {
                        old(self).pixel_at(px, py)
                    }) by {
                        lemma_pixel_index_bounds(stride as int, height as int, px, py);
                        assert(prev.pixel_at(px, py) == (if (min.0 <= px < hi_x && min.1 <= py < y)
                            || (py == y && min.0 <= px < x) {
                            pixel
                        } else {
                            old(self).pixel_at(px, py)
                        }));
                        if px == x && py == y {
                            assert(self.pixel_at(px, py) == pixel);
                        } else {
                            if px + py * stride == x + y * stride {
                                lemma_pixel_index_injective(
                                    stride as int,
                                    px,
                                    py,
                                    x as int,
                                    y as int,
                                );
                            }
                            assert(self.pixel_at(px, py) == prev.pixel_at(px, py));
                        }
                    }
                }
                x = x + 1;
            }
            y = y + 1;
        }
        Ok(())
    }

    /// Clear the whole visible surface to black (the background color): a
    /// half-open rectangle fill over the full bounds. On a surface with no
    /// visible pixels the fill is rejected and nothing changes; either way
    /// the padding columns stay as they were.
    pub fn reset(&mut self)
        requires
            old(self).wf(),
        ensures
            final(self).wf(),
            old(self).same_dims(*final(self)),
            if old(self).width_spec() >= 1 && old(self).height_spec() >= 1 {
                forall|px: int, py: int|
                    0 <= px < old(self).stride_spec() && 0 <= py < old(self).height_spec()
                        ==> final(self).pixel_at(px, py) == (if px < old(self).width_spec() && py
                        < old(self).height_spec() {
                        (Color { r: 0, g: 0, b: 0 })
                    } else {
                        old(self).pixel_at(px, py)
                    })
            } else {
                final(self).pixels_spec() == old(self).pixels_spec()
            },
    {
        let w = self.width;
        let h = self.height;
        let _ = self.rectangle((0, 0), (w, h), Color { r: 0, g: 0, b: 0 }, true);
    }

    /// The surface's bounding rectangle for layout queries: the origin and
    /// the visible resolution.
    pub fn bounding_box(&self) -> (r: Rect)
        ensures
            r.x == 0,
            r.y == 0,
            r.width == self.width_spec(),
            r.height == self.height_spec(),
    {
        Rect { x: 0, y: 0, width: self.width, height: self.height }
    }

    /// The per-pixel draw entry point: route each positioned pixel through
    /// `write_pixel` in order, stopping at the first bounds failure. On
    /// success every op was in bounds and all were applied; on failure the
    /// ops before the first out-of-bounds one, and nothing else, took
    /// effect.
    pub fn draw_iter(&mut self, ops: &Vec<PixelOp>) -> (r: Result<(), SurfaceError>)
        requires
            old(self).wf(),
        ensures
            final(self).wf(),
            old(self).same_dims(*final(self)),
            match r {
                Ok(_) => {
                    &&& forall|k: int|
                        0 <= k < ops@.len() ==> in_bounds_op(
                            ops@[k],
                            old(self).width_spec(),
                            old(self).height_spec(),
                        )
                    &&& final(self).pixels_spec() == apply_ops(
                        old(self).pixels_spec(),
                        old(self).stride_spec(),
                        ops@,
                    )
                },
                Err(e) => {
                    &&& e == SurfaceError::BoundsError
                    &&& exists|j: int|
                        {
                            &&& 0 <= j < ops@.len()
                            &&& !in_bounds_op(
                                #[trigger] ops@[j],
                                old(self).width_spec(),
                                old(self).height_spec(),
                            )
                            &&& (forall|k: int|
                                0 <= k < j ==> in_bounds_op(
                                    ops@[k],
                                    old(self).width_spec(),
                                    old(self).height_spec(),
                                ))
                            &&& final(self).pixels_spec() == apply_ops(
                                old(self).pixels_spec(),
                                old(self).stride_spec(),
                                ops@.take(j),
                            )
                        }
                },
            },
    {
        let n = ops.len();
        let mut i: usize = 0;
        while i < n
            invariant
                self.wf(),
                old(self).same_dims(*self),
                n == ops@.len(),
                i <= n,
                forall|k: int|
                    0 <= k < i ==> in_bounds_op(
                        ops@[k],
                        old(self).width_spec(),
                        old(self).height_spec(),
                    ),
                self.pixels_spec() == apply_ops(
                    old(self).pixels_spec(),
                    old(self).stride_spec(),
                    ops@.take(i as int),
                ),
            decreases n - i,
        {
            let op = ops[i];
            let ghost taken = ops@.take(i as int);
            match self.write_pixel(op.x, op.y, op.color) {
                Ok(_) => {
                    proof {
                        assert(ops@.take(i + 1).drop_last() =~= taken);
                        assert(ops@.take(i + 1).last() == ops@[i as int]);
                    }
                },
                Err(_) => {
                    proof {
                        assert(!in_bounds_op(
                            ops@[i as int],
                            old(self).width_spec(),
                            old(self).height_spec(),
                        ));
                    }
                    return Err(SurfaceError::BoundsError);
                },
            }
            i = i + 1;
        }
        proof {
            assert(ops@.take(n as int) =~= ops@);
        }
        Ok(())
    }

    /// The bulk draw entry point: fill `area` through the rectangle fast
    /// path with closed-interval semantics, so an area needs an extent of at
    /// least 2 in each direction to name a corner strictly beyond its
    /// origin. An empty or unit-wide area is rejected as `InvalidRectangle`,
    /// an area reaching outside the surface as `BoundsError`.
    pub fn fill_solid(&mut self, area: &Rect, color: Color) -> (r: Result<(), SurfaceError>)
        requires
            old(self).wf(),
        ensures
            final(self).wf(),
            old(self).same_dims(*final(self)),
            match r {
                Ok(_) => {
                    &&& area.width >= 2 && area.height >= 2
                    &&& area.x + area.width <= old(self).width_spec()
                    &&& area.y + area.height <= old(self).height_spec()
                    &&& forall|px: int, py: int|
                        0 <= px < old(self).stride_spec() && 0 <= py < old(self).height_spec()
                            ==> final(self).pixel_at(px, py) == (if area.x <= px < area.x
                            + area.width && area.y <= py < area.y + area.height {
                            color
                        } else {
                            old(self).pixel_at(px, py)
                        })
                },
                Err(e) => {
                    &&& final(self).pixels_spec() == old(self).pixels_spec()
                    &&& (e == SurfaceError::InvalidRectangle <==> (area.width <= 1 || area.height
                        <= 1))
                    &&& (e == SurfaceError::BoundsError ==> (area.x + area.width
                        > old(self).width_spec() || area.y + area.height > old(
                        self,
                    ).height_spec()))
                },
            },
    {
        if area.width <= 1 || area.height <= 1 {
            return Err(SurfaceError::InvalidRectangle);
        }
        let max_x = match area.x.checked_add(area.width - 1) {
            Some(v) => v,
            None => {
                return Err(SurfaceError::BoundsError);
            },
        };
        let max_y = match area.y.checked_add(area.height - 1) {
            Some(v) => v,
            None => {
                return Err(SurfaceError::BoundsError);
            },
        };
        self.rectangle((area.x, area.y), (max_x, max_y), color, false)
    }
}

/// Whether one positioned pixel lies strictly inside the visible bounds.
pub open spec fn in_bounds_op(op: PixelOp, width: usize, height: usize) -> bool {
    op.x < width && op.y < height
}

/// The pixel memory after applying a sequence of positioned writes in order.
pub open spec fn apply_ops(p: Seq<Color>, stride: usize, ops: Seq<PixelOp>) -> Seq<Color>
    decreases ops.len(),
{
    if ops.len() == 0 {
        p
    } else {
        apply_ops(p, stride, ops.drop_last()).update(
            ops.last().x + ops.last().y * stride,
            ops.last().color,
        )
    }
}

/// The exclusive upper bound of a rectangle edge: the edge itself for the
/// half-open (strict) form, one past it for the closed form.
pub open spec fn rect_hi(v: int, strict: bool) -> int {
    if strict {
        v
    } else {
        v + 1
    }
}

/// The single-pixel writes that cover columns `[lo_x, lo_x + len)` of row
/// `y`, left to right.
pub open spec fn rect_row(lo_x: usize, len: nat, y: usize, color: Color) -> Seq<PixelOp>
    decreases len,
{
    if len == 0 {
        Seq::empty()
    } else {
        rect_row(lo_x, (len - 1) as nat, y, color).push(
            PixelOp { x: (lo_x + len - 1) as usize, y, color },
        )
    }
}

/// The row-major sequence of single-pixel writes that covers columns
/// `[lo_x, hi_x)` of the `n_rows` rows starting at `lo_y`.
pub open spec fn rect_ops(lo_x: usize, hi_x: usize, lo_y: usize, n_rows: nat, color: Color) -> Seq<
    PixelOp,
>
    decreases n_rows,
{
    if n_rows == 0 {
        Seq::empty()
    } else {
        rect_ops(lo_x, hi_x, lo_y, (n_rows - 1) as nat, color) + rect_row(
            lo_x,
            (hi_x - lo_x) as nat,
            (lo_y + n_rows - 1) as usize,
            color,
        )
    }
}

/// The pixel a flat row-major memory holds at column `x` of row `y`.
pub open spec fn cell(p: Seq<Color>, stride: usize, x: int, y: int) -> Color {
    p[x + y * stride]
}

proof fn lemma_apply_ops_len(p: Seq<Color>, stride: usize, height: usize, ops: Seq<PixelOp>)
    requires
        p.len() == stride * height,
        forall|k: int|
            0 <= k < ops.len() ==> (#[trigger] ops[k]).x < stride && ops[k].y < height,
    ensures
        apply_ops(p, stride, ops).len() == p.len(),
    decreases ops.len(),
{
    if ops.len() > 0 {
        lemma_apply_ops_len(p, stride, height, ops.drop_last());
        let op = ops.last();
        lemma_pixel_index_bounds(stride as int, height as int, op.x as int, op.y as int);
    }
}

proof fn lemma_rect_row_props(lo_x: usize, len: nat, y: usize, color: Color)
    requires
        lo_x + len <= usize::MAX,
    ensures
        rect_row(lo_x, len, y, color).len() == len,
        forall|k: int|
            0 <= k < len ==> (#[trigger] rect_row(lo_x, len, y, color)[k]) == (PixelOp {
                x: (lo_x + k) as usize,
                y,
                color,
            }),
    decreases len,
{
    if len > 0 {
        lemma_rect_row_props(lo_x, (len - 1) as nat, y, color);
    }
}

proof fn lemma_rect_ops_props(lo_x: usize, hi_x: usize, lo_y: usize, n_rows: nat, color: Color)
    requires
        lo_x <= hi_x,
        lo_y + n_rows <= usize::MAX,
    ensures
        forall|k: int|
            0 <= k < rect_ops(lo_x, hi_x, lo_y, n_rows, color).len() ==> (#[trigger] rect_ops(
                lo_x,
                hi_x,
                lo_y,
                n_rows,
                color,
            )[k]).x < hi_x && lo_y <= rect_ops(lo_x, hi_x, lo_y, n_rows, color)[k].y < lo_y
                + n_rows,
    decreases n_rows,
{
    if n_rows > 0 {
        lemma_rect_ops_props(lo_x, hi_x, lo_y, (n_rows - 1) as nat, color);
        let y = (lo_y + n_rows - 1) as usize;
        lemma_rect_row_props(lo_x, (hi_x - lo_x) as nat, y, color);
        let above = rect_ops(lo_x, hi_x, lo_y, (n_rows - 1) as nat, color);
        let row = rect_row(lo_x, (hi_x - lo_x) as nat, y, color);
        let ops = rect_ops(lo_x, hi_x, lo_y, n_rows, color);
        assert(ops == above + row);
        assert forall|k: int| 0 <= k < ops.len() implies (#[trigger] ops[k]).x < hi_x && lo_y
            <= ops[k].y < lo_y + n_rows by {
            if k < above.len() {
                assert(ops[k] == above[k]);
                assert(above[k].x < hi_x && lo_y <= above[k].y < lo_y + (n_rows - 1));
            } else {
                let j = k - above.len();
                assert(ops[k] == row[j]);
                assert(row[j] == (PixelOp { x: (lo_x + j) as usize, y, color }));
            }
        }
    }
}

proof fn lemma_apply_ops_concat(p: Seq<Color>, stride: usize, a: Seq<PixelOp>, b: Seq<PixelOp>)
    ensures
        apply_ops(p, stride, a + b) == apply_ops(apply_ops(p, stride, a), stride, b),
    decreases b.len(),
{
    if b.len() == 0 {
        assert(a + b =~= a);
    } else {
        lemma_apply_ops_concat(p, stride, a, b.drop_last());
        assert((a + b).drop_last() =~= a + b.drop_last());
        assert((a + b).last() == b.last());
    }
}

proof fn lemma_apply_row(
    p: Seq<Color>,
    stride: usize,
    height: usize,
    lo_x: usize,
    len: nat,
    y: usize,
    color: Color,
)
    requires
        p.len() == stride * height,
        lo_x + len <= stride,
        y < height,
    ensures
        forall|px: int, py: int|
            0 <= px < stride && 0 <= py < height ==> #[trigger] cell(
                apply_ops(p, stride, rect_row(lo_x, len, y, color)),
                stride,
                px,
                py,
            ) == (if py == y && lo_x <= px < lo_x + len {
                color
            } else {
                cell(p, stride, px, py)
            }),
    decreases len,
{
    if len == 0 {
    } else {
        lemma_apply_row(p, stride, height, lo_x, (len - 1) as nat, y, color);
        lemma_rect_row_props(lo_x, len, y, color);
        lemma_rect_row_props(lo_x, (len - 1) as nat, y, color);
        let ops = rect_row(lo_x, len, y, color);
        assert(ops.drop_last() =~= rect_row(lo_x, (len - 1) as nat, y, color));
        let shorter = apply_ops(p, stride, rect_row(lo_x, (len - 1) as nat, y, color));
        let cur = apply_ops(p, stride, ops);
        let wx = lo_x + len - 1;
        assert(ops.last() == (PixelOp { x: (lo_x + len - 1) as usize, y, color }));
        assert(cur == shorter.update(wx + y * stride, color));
        lemma_apply_ops_len(p, stride, height, rect_row(lo_x, (len - 1) as nat, y, color));
        lemma_pixel_index_bounds(stride as int, height as int, wx, y as int);
        assert forall|px: int, py: int|
            0 <= px < stride && 0 <= py < height implies #[trigger] cell(cur, stride, px, py) == (
        if py == y && lo_x <= px < lo_x + len {
            color
        } else {
            cell(p, stride, px, py)
        }) by {
            lemma_pixel_index_bounds(stride as int, height as int, px, py);
            assert(cell(shorter, stride, px, py) == (if py == y && lo_x <= px < lo_x + (len - 1) {
                color
            } else {
                cell(p, stride, px, py)
            }));
            if px == wx && py == y {
                assert(cell(cur, stride, px, py) == color);
            } else {
                if px + py * stride == wx + y * stride {
                    lemma_pixel_index_injective(stride as int, px, py, wx, y as int);
                }
                assert(cell(cur, stride, px, py) == cell(shorter, stride, px, py));
            }
        }
    }
}

/// The bulk rectangle fill and the per-pixel path agree: applying the
/// row-major single-pixel writes of the rectangle `[lo_x, hi_x) x
/// [lo_y, hi_y)` leaves exactly the pixels that the Ok contract of
/// `rectangle` describes — the covered pixels set to the color, every other
/// cell as it was.
pub proof fn lemma_rectangle_matches_pixel_writes(
    p: Seq<Color>,
    stride: usize,
    height: usize,
    lo_x: usize,
    hi_x: usize,
    lo_y: usize,
    hi_y: usize,
    color: Color,
)
    requires
        p.len() == stride * height,
        lo_x <= hi_x <= stride,
        lo_y <= hi_y <= height,
    ensures
        forall|px: int, py: int|
            0 <= px < stride && 0 <= py < height ==> #[trigger] cell(
                apply_ops(p, stride, rect_ops(lo_x, hi_x, lo_y, (hi_y - lo_y) as nat, color)),
                stride,
                px,
                py,
            ) == (if lo_x <= px < hi_x && lo_y <= py < hi_y {
                color
            } else {
                cell(p, stride, px, py)
            }),
{
    lemma_rect_ops_rows(p, stride, height, lo_x, hi_x, lo_y, (hi_y - lo_y) as nat, color);
}

proof fn lemma_rect_ops_rows(
    p: Seq<Color>,
    stride: usize,
    height: usize,
    lo_x: usize,
    hi_x: usize,
    lo_y: usize,
    n_rows: nat,
    color: Color,
)
    requires
        p.len() == stride * height,
        lo_x <= hi_x <= stride,
        lo_y + n_rows <= height,
    ensures
        forall|px: int, py: int|
            0 <= px < stride && 0 <= py < height ==> #[trigger] cell(
                apply_ops(p, stride, rect_ops(lo_x, hi_x, lo_y, n_rows, color)),
                stride,
                px,
                py,
            ) == (if lo_x <= px < hi_x && lo_y <= py < lo_y + n_rows {
                color
            } else {
                cell(p, stride, px, py)
            }),
    decreases n_rows,
{
    if n_rows == 0 {
    } else {
        lemma_rect_ops_rows(p, stride, height, lo_x, hi_x, lo_y, (n_rows - 1) as nat, color);
        let above = rect_ops(lo_x, hi_x, lo_y, (n_rows - 1) as nat, color);
        let y = (lo_y + n_rows - 1) as usize;
        let row = rect_row(lo_x, (hi_x - lo_x) as nat, y, color);
        lemma_apply_ops_concat(p, stride, above, row);
        let mid = apply_ops(p, stride, above);
        lemma_rect_ops_props(lo_x, hi_x, lo_y, (n_rows - 1) as nat, color);
        lemma_apply_ops_len(p, stride, height, above);
        lemma_apply_row(mid, stride, height, lo_x, (hi_x - lo_x) as nat, y, color);
    }
}

/// A coordinate pair strictly inside the stride-by-height grid addresses a
/// cell of the backing memory.
proof fn lemma_pixel_index_bounds(stride: int, height: int, x: int, y: int)
    by (nonlinear_arith)
    requires
        0 <= x < stride,
        0 <= y < height,
    ensures
        0 <= x + y * stride < stride * height,
{
}

/// Distinct coordinate pairs address distinct cells: the linear index
/// determines the column and the row.
proof fn lemma_pixel_index_injective(stride: int, x1: int, y1: int, x2: int, y2: int)
    requires
        0 <= x1 < stride,
        0 <= x2 < stride,
        0 <= y1,
        0 <= y2,
        x1 + y1 * stride == x2 + y2 * stride,
    ensures
        x1 == x2,
        y1 == y2,
{
    let i = x1 + y1 * stride;
    lemma_fundamental_div_mod_converse(i, stride, y1, x1);
    lemma_fundamental_div_mod_converse(i, stride, y2, x2);
}

} // verus!
