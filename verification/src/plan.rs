//! Grid planning: how an oversized image is partitioned into tiles.

use vstd::prelude::*;

verus! {

use vstd::arithmetic::div_mod::lemma_fundamental_div_mod;
use vstd::arithmetic::div_mod::lemma_fundamental_div_mod_converse;
use vstd::arithmetic::div_mod::lemma_mod_bound;
use vstd::arithmetic::mul::lemma_mul_inequality;

/// Width and height of a decoded image, in pixels.
#[derive(Clone, Copy, PartialEq, Eq, Structural, Debug)]
pub struct ImageDimensions {
    pub width: u32,
    pub height: u32,
}

/// One output region, in source-image coordinate space.
#[derive(Clone, Copy, PartialEq, Eq, Structural, Debug)]
pub struct TileSpec {
    pub origin_x: u32,
    pub origin_y: u32,
    pub width: u32,
    pub height: u32,
}

impl TileSpec {
    /// The point `(px, py)` lies inside this region.
    pub open spec fn contains(self, px: int, py: int) -> bool {
        &&& self.origin_x <= px < self.origin_x + self.width
        &&& self.origin_y <= py < self.origin_y + self.height
    }

    /// The region is non-empty and lies inside a `w` by `h` image.
    pub open spec fn fits(self, w: int, h: int) -> bool {
        &&& 0 < self.width
        &&& 0 < self.height
        &&& self.origin_x + self.width <= w
        &&& self.origin_y + self.height <= h
    }
}

/// `ceil(a / b)` for positive `b`.
pub open spec fn ceil_div(a: int, b: int) -> int {
    (a + b - 1) / b
}

/// Number of grid columns (or rows) an axis of length `d` splits into
/// under stride `stride`.
pub open spec fn split_count(d: int, stride: int) -> int {
    ceil_div(d, stride)
}

/// The tile of grid cell `(col, row)` for a `w` by `h` image cut with
/// strides `tw`, `th`: it starts at `(col * tw, row * th)` and is clamped
/// to the image edges.
pub open spec fn grid_cell(w: int, h: int, tw: int, th: int, col: int, row: int) -> TileSpec {
    TileSpec {
        origin_x: (col * tw) as u32,
        origin_y: (row * th) as u32,
        width: (if w - col * tw < tw { w - col * tw } else { tw }) as u32,
        height: (if h - row * th < th { h - row * th } else { th }) as u32,
    }
}

/// The whole plan, row-major: tile `k` is grid cell
/// `(k % split_count(w, tw), k / split_count(w, tw))`.
pub open spec fn grid_seq(w: int, h: int, tw: int, th: int) -> Seq<TileSpec> {
    Seq::new(
        (split_count(w, tw) * split_count(h, th)) as nat,
        |k: int| grid_cell(w, h, tw, th, k % split_count(w, tw), k / split_count(w, tw)),
    )
}

/// A plan covers the point `(px, py)` with at least one tile.
pub open spec fn plan_covers(plan: Seq<TileSpec>, px: int, py: int) -> bool {
    exists|k: int| 0 <= k < plan.len() && #[trigger] plan[k].contains(px, py)
}

/// No point lies in two distinct tiles of the plan.
pub open spec fn plan_disjoint(plan: Seq<TileSpec>) -> bool {
    forall|k1: int, k2: int, px: int, py: int|
        0 <= k1 < plan.len() && 0 <= k2 < plan.len() && #[trigger] plan[k1].contains(px, py)
            && #[trigger] plan[k2].contains(px, py) ==> k1 == k2
}

/// The plan partitions the `w` by `h` rectangle exactly: every tile fits
/// inside it, every point is covered, and no two tiles overlap.
pub open spec fn plan_exact(plan: Seq<TileSpec>, w: int, h: int) -> bool {
    &&& forall|k: int| 0 <= k < plan.len() ==> (#[trigger] plan[k]).fits(w, h)
    &&& forall|px: int, py: int| 0 <= px < w && 0 <= py < h ==> plan_covers(plan, px, py)
    &&& plan_disjoint(plan)
}

proof fn lemma_ceil_div_bounds(d: int, s: int)
    requires
        0 < d,
        0 < s,
    ensures
        1 <= ceil_div(d, s) <= d,
        (ceil_div(d, s) - 1) * s < d,
        d <= ceil_div(d, s) * s,
{
    let q = (d + s - 1) / s;
    let r = (d + s - 1) % s;
    lemma_fundamental_div_mod(d + s - 1, s);
    lemma_mod_bound(d + s - 1, s);
    assert(s * q == q * s) by (nonlinear_arith);
    assert((q - 1) * s == q * s - s) by (nonlinear_arith);
    assert(q >= 1) by (nonlinear_arith)
        requires
            q * s >= d,
            d >= 1,
            s >= 1,
    ;
    assert(q <= d) by (nonlinear_arith)
        requires
            q * s <= d + s - 1,
            d >= 1,
            s >= 1,
    ;
}

proof fn lemma_ceil_div_alt(d: int, s: int)
    requires
        0 < d,
        0 < s,
    ensures
        ceil_div(d, s) == (d - 1) / s + 1,
{
    let q = (d - 1) / s;
    let r = (d - 1) % s;
    lemma_fundamental_div_mod(d - 1, s);
    lemma_mod_bound(d - 1, s);
    assert(s * q == q * s) by (nonlinear_arith);
    assert((q + 1) * s == q * s + s) by (nonlinear_arith);
    lemma_fundamental_div_mod_converse(d + s - 1, s, q + 1, r);
}

/// On one axis of length `d` cut with stride `s`, the point `p` falls in
/// column `p / s`, which is a valid column of the grid.
proof fn lemma_axis_cover(d: int, s: int, p: int)
    requires
        0 < d,
        0 < s,
        0 <= p < d,
    ensures
        0 <= p / s < split_count(d, s),
        (p / s) * s <= p < (p / s) * s + s,
{
    let c = p / s;
    let r = p % s;
    lemma_fundamental_div_mod(p, s);
    lemma_mod_bound(p, s);
    lemma_ceil_div_bounds(d, s);
    let sc = split_count(d, s);
    assert(s * c == c * s) by (nonlinear_arith);
    assert(c >= 0) by (nonlinear_arith)
        requires
            p < c * s + s,
            p >= 0,
            s >= 1,
    ;
    assert(c < sc) by (nonlinear_arith)
        requires
            c * s <= p,
            p < d,
            d <= sc * s,
            s >= 1,
    ;
}

/// A point inside the half-open span `[c * s, c * s + s)` determines the
/// column: `c == p / s`.
proof fn lemma_axis_unique(s: int, c: int, p: int)
    requires
        0 < s,
        0 <= c,
        c * s <= p < c * s + s,
    ensures
        c == p / s,
{
    lemma_fundamental_div_mod_converse(p, s, c, p - c * s);
}

/// Every cell of the grid, taken at a valid column and row, starts
/// strictly inside the image.
proof fn lemma_cell_origin(d: int, s: int, c: int)
    requires
        0 < d,
        0 < s,
        0 <= c < split_count(d, s),
    ensures
        0 <= c * s < d,
{
    lemma_ceil_div_bounds(d, s);
    lemma_mul_inequality(c, split_count(d, s) - 1, s);
    assert(c * s >= 0) by (nonlinear_arith)
        requires
            c >= 0,
            s >= 1,
    ;
}

/// Row-major index arithmetic: `k == row * sx + col` with `col` a valid
/// column decomposes as `col == k % sx`, `row == k / sx`.
proof fn lemma_row_major(sx: int, col: int, row: int)
    requires
        0 < sx,
        0 <= col < sx,
        0 <= row,
    ensures
        (row * sx + col) % sx == col,
        (row * sx + col) / sx == row,
{
    lemma_fundamental_div_mod_converse(row * sx + col, sx, row, col);
}

/// The grid plan of a `w` by `h` image cut with strides `tw`, `th`
/// partitions the image exactly, and no tile is wider than `tw` nor
/// taller than `th`.
pub proof fn lemma_grid_exact(w: int, h: int, tw: int, th: int)
    requires
        0 < w <= u32::MAX,
        0 < h <= u32::MAX,
        0 < tw <= u32::MAX,
        0 < th <= u32::MAX,
    ensures
        grid_seq(w, h, tw, th).len() == split_count(w, tw) * split_count(h, th),
        plan_exact(grid_seq(w, h, tw, th), w, h),
        forall|k: int| 0 <= k < grid_seq(w, h, tw, th).len() ==> (#[trigger] grid_seq(
            w,
            h,
            tw,
            th,
        )[k]).width <= tw && grid_seq(w, h, tw, th)[k].height <= th,
{
    let plan = grid_seq(w, h, tw, th);
    let sx = split_count(w, tw);
    let sy = split_count(h, th);
    lemma_ceil_div_bounds(w, tw);
    lemma_ceil_div_bounds(h, th);
    assert(0 < sx * sy) by (nonlinear_arith)
        requires
            1 <= sx,
            1 <= sy,
    ;
    // Each tile fits in the image and respects the strides.
    assert forall|k: int| 0 <= k < plan.len() implies (#[trigger] plan[k]).fits(w, h)
        && plan[k].width <= tw && plan[k].height <= th by {
        let col = k % sx;
        let row = k / sx;
        lemma_mod_bound(k, sx);
        lemma_fundamental_div_mod(k, sx);
        assert(0 <= row && row < sy) by (nonlinear_arith)
            requires
                k == sx * row + col,
                0 <= k < sx * sy,
                0 <= col < sx,
                1 <= sx,
                1 <= sy,
        ;
        lemma_cell_origin(w, tw, col);
        lemma_cell_origin(h, th, row);
    }
    // Every point of the image lies in the tile of its column and row.
    assert forall|px: int, py: int| 0 <= px < w && 0 <= py < h implies plan_covers(
        plan,
        px,
        py,
    ) by {
        lemma_axis_cover(w, tw, px);
        lemma_axis_cover(h, th, py);
        let col = px / tw;
        let row = py / th;
        let k = row * sx + col;
        lemma_row_major(sx, col, row);
        assert(0 <= k < sx * sy) by (nonlinear_arith)
            requires
                k == row * sx + col,
                0 <= col < sx,
                0 <= row < sy,
        ;
        lemma_cell_origin(w, tw, col);
        lemma_cell_origin(h, th, row);
        assert(plan[k].contains(px, py));
    }
    // A point determines its tile: the plan is overlap-free.
    assert forall|k1: int, k2: int, px: int, py: int|
        0 <= k1 < plan.len() && 0 <= k2 < plan.len() && #[trigger] plan[k1].contains(px, py)
            && #[trigger] plan[k2].contains(px, py) implies k1 == k2 by {
        lemma_grid_point_index(w, h, tw, th, k1, px, py);
        lemma_grid_point_index(w, h, tw, th, k2, px, py);
    }
}

/// A tile of the grid plan that contains `(px, py)` must be the tile of
/// that point's column and row, so its index is determined by the point.
proof fn lemma_grid_point_index(w: int, h: int, tw: int, th: int, k: int, px: int, py: int)
    requires
        0 < w <= u32::MAX,
        0 < h <= u32::MAX,
        0 < tw <= u32::MAX,
        0 < th <= u32::MAX,
        0 <= k < grid_seq(w, h, tw, th).len(),
        grid_seq(w, h, tw, th)[k].contains(px, py),
    ensures
        k == (py / th) * split_count(w, tw) + px / tw,
{
    let sx = split_count(w, tw);
    let sy = split_count(h, th);
    lemma_ceil_div_bounds(w, tw);
    lemma_ceil_div_bounds(h, th);
    let col = k % sx;
    let row = k / sx;
    lemma_mod_bound(k, sx);
    lemma_fundamental_div_mod(k, sx);
    assert(0 <= row && row < sy) by (nonlinear_arith)
        requires
            k == sx * row + col,
            0 <= k < sx * sy,
            0 <= col < sx,
            1 <= sx,
            1 <= sy,
    ;
    lemma_cell_origin(w, tw, col);
    lemma_cell_origin(h, th, row);
    lemma_axis_unique(tw, col, px);
    lemma_axis_unique(th, row, py);
    assert(k == sx * row + col);
    assert(sx * row == row * sx) by (nonlinear_arith);
}

/// Why planning refuses an input: a zero maximum edge or a zero-sized
/// image admits no tiling.
#[derive(Clone, Copy, PartialEq, Eq, Structural, Debug)]
pub enum TileError {
    InvalidConfig,
}

/// The stride of the even-split policy on one axis: the axis is first cut
/// into `ceil_div(d, me)` equal parts, and the stride is the rounded-up
/// length of one part.  It never exceeds `me`.
pub open spec fn even_stride(d: int, me: int) -> int {
    ceil_div(d, ceil_div(d, me))
}

/// The even-split stride is positive, at most `me`, and at most `d`.
pub proof fn lemma_even_stride_bounds(d: int, me: int)
    requires
        0 < d,
        0 < me,
    ensures
        1 <= even_stride(d, me) <= me,
        even_stride(d, me) <= d,
{
    lemma_ceil_div_bounds(d, me);
    let s = ceil_div(d, me);
    lemma_ceil_div_bounds(d, s);
    let q = ceil_div(d, s);
    assert(q <= me) by (nonlinear_arith)
        requires
            (q - 1) * s < d,
            d <= s * me,
            s >= 1,
    ;
}

/// An axis no longer than the allowed edge is not split: its even-split
/// stride is the whole axis.
pub proof fn lemma_even_stride_small(d: int, me: int)
    requires
        0 < d <= me,
    ensures
        even_stride(d, me) == d,
{
    lemma_fundamental_div_mod_converse(d + me - 1, me, 1, d - 1);
    assert(ceil_div(d, me) == 1);
    assert(even_stride(d, me) == (d + 1 - 1) / 1);
}

/// Build the row-major grid plan of a `w` by `h` image with strides
/// `tw`, `th`.
fn make_grid(w: u32, h: u32, tw: u32, th: u32) -> (r: Vec<TileSpec>)
    requires
        0 < w,
        0 < h,
        0 < tw,
        0 < th,
    ensures
        r@ == grid_seq(w as int, h as int, tw as int, th as int),
{
    let ghost gw = w as int;
    let ghost gh = h as int;
    let ghost gtw = tw as int;
    let ghost gth = th as int;
    proof {
        lemma_ceil_div_bounds(gw, gtw);
        lemma_ceil_div_bounds(gh, gth);
        lemma_ceil_div_alt(gw, gtw);
        lemma_ceil_div_alt(gh, gth);
    }
    let sx: u32 = (w - 1) / tw + 1;
    let sy: u32 = (h - 1) / th + 1;
    let mut tiles: Vec<TileSpec> = Vec::new();
    let mut row: u32 = 0;
    while row < sy
        invariant
            0 < w,
            0 < h,
            0 < tw,
            0 < th,
            sx == split_count(w as int, tw as int),
            sy == split_count(h as int, th as int),
            row <= sy,
            tiles@.len() == row * sx,
            forall|k: int|
                0 <= k < tiles@.len() ==> #[trigger] tiles@[k] == grid_seq(
                    w as int,
                    h as int,
                    tw as int,
                    th as int,
                )[k],
        decreases sy - row,
    {
        let mut col: u32 = 0;
        while col < sx
            invariant
                0 < w,
                0 < h,
                0 < tw,
                0 < th,
                sx == split_count(w as int, tw as int),
                sy == split_count(h as int, th as int),
                row < sy,
                col <= sx,
                tiles@.len() == row * sx + col,
                forall|k: int|
                    0 <= k < tiles@.len() ==> #[trigger] tiles@[k] == grid_seq(
                        w as int,
                        h as int,
                        tw as int,
                        th as int,
                    )[k],
            decreases sx - col,
        {
            proof {
                lemma_cell_origin(w as int, tw as int, col as int);
                lemma_cell_origin(h as int, th as int, row as int);
            }
            let ox: u32 = col * tw;
            let oy: u32 = row * th;
            let rem_w: u32 = w - ox;
            let rem_h: u32 = h - oy;
            let tile_w: u32 = if rem_w < tw {
                rem_w
            } else {
                tw
            };
            let tile_h: u32 = if rem_h < th {
                rem_h
            } else {
                th
            };
            let ts = TileSpec { origin_x: ox, origin_y: oy, width: tile_w, height: tile_h };
            proof {
                let k = row as int * sx as int + col as int;
                lemma_row_major(sx as int, col as int, row as int);
                lemma_ceil_div_bounds(w as int, tw as int);
                lemma_ceil_div_bounds(h as int, th as int);
                assert(0 <= k < sx as int * sy as int) by (nonlinear_arith)
                    requires
                        k == row as int * sx as int + col as int,
                        0 <= col < sx,
                        0 <= row < sy,
                ;
                assert(ts == grid_seq(w as int, h as int, tw as int, th as int)[k]);
            }
            tiles.push(ts);
            col = col + 1;
        }
        proof {
            assert((row + 1) * sx == row * sx + sx) by (nonlinear_arith);
        }
        row = row + 1;
    }
    proof {
        assert(sy as int * sx as int == sx as int * sy as int) by (nonlinear_arith);
        assert(tiles@ =~= grid_seq(w as int, h as int, tw as int, th as int));
    }
    tiles
}

/// Fixed-stride policy: the image is stepped through in strides of
/// exactly `max_edge` on both axes; the last tile of a row or column
/// keeps whatever remains, so it may be a thin sliver.
///
/// This returns `Ok` exactly when the configuration is usable: a positive
/// maximum edge and a non-empty image.
pub fn plan_fixed_stride(dims: ImageDimensions, max_edge: u32) -> (r: Result<
    Vec<TileSpec>,
    TileError,
>)
    ensures
        r is Ok <==> (0 < max_edge && 0 < dims.width && 0 < dims.height),
        r matches Ok(p) ==> p@ == grid_seq(
            dims.width as int,
            dims.height as int,
            max_edge as int,
            max_edge as int,
        ),
        r matches Err(e) ==> e == TileError::InvalidConfig,
{
    if max_edge == 0 || dims.width == 0 || dims.height == 0 {
        return Err(TileError::InvalidConfig);
    }
    Ok(make_grid(dims.width, dims.height, max_edge, max_edge))
}

/// Even-split policy: each axis is cut into the least number of parts
/// whose stride stays within `max_edge`, and the parts of one axis are as
/// even as rounding allows, so no thin sliver tile arises.
///
/// This returns `Ok` exactly when the configuration is usable: a positive
/// maximum edge and a non-empty image.
pub fn plan_even_split(dims: ImageDimensions, max_edge: u32) -> (r: Result<
    Vec<TileSpec>,
    TileError,
>)
    ensures
        r is Ok <==> (0 < max_edge && 0 < dims.width && 0 < dims.height),
        r matches Ok(p) ==> p@ == grid_seq(
            dims.width as int,
            dims.height as int,
            even_stride(dims.width as int, max_edge as int),
            even_stride(dims.height as int, max_edge as int),
        ),
        r matches Err(e) ==> e == TileError::InvalidConfig,
{
    if max_edge == 0 || dims.width == 0 || dims.height == 0 {
        return Err(TileError::InvalidConfig);
    }
    let ghost gw = dims.width as int;
    let ghost gh = dims.height as int;
    let ghost gme = max_edge as int;
    proof {
        lemma_ceil_div_bounds(gw, gme);
        lemma_ceil_div_bounds(gh, gme);
        lemma_ceil_div_alt(gw, gme);
        lemma_ceil_div_alt(gh, gme);
    }
    let sx: u32 = (dims.width - 1) / max_edge + 1;
    let sy: u32 = (dims.height - 1) / max_edge + 1;
    proof {
        lemma_ceil_div_bounds(gw, sx as int);
        lemma_ceil_div_bounds(gh, sy as int);
        lemma_ceil_div_alt(gw, sx as int);
        lemma_ceil_div_alt(gh, sy as int);
    }
    let tw: u32 = (dims.width - 1) / sx + 1;
    let th: u32 = (dims.height - 1) / sy + 1;
    Ok(make_grid(dims.width, dims.height, tw, th))
}

/// The fixed-stride plan partitions the image exactly, and no tile
/// exceeds the maximum edge on either axis.
pub proof fn lemma_fixed_stride_exact(w: int, h: int, me: int)
    requires
        0 < w <= u32::MAX,
        0 < h <= u32::MAX,
        0 < me <= u32::MAX,
    ensures
        plan_exact(grid_seq(w, h, me, me), w, h),
        forall|k: int|
            0 <= k < grid_seq(w, h, me, me).len() ==> (#[trigger] grid_seq(w, h, me, me)[k]).width
                <= me && grid_seq(w, h, me, me)[k].height <= me,
{
    lemma_grid_exact(w, h, me, me);
}

/// The even-split plan partitions the image exactly, and its balanced
/// strides also keep every tile within the maximum edge on both axes.
pub proof fn lemma_even_split_exact(w: int, h: int, me: int)
    requires
        0 < w <= u32::MAX,
        0 < h <= u32::MAX,
        0 < me <= u32::MAX,
    ensures
        plan_exact(grid_seq(w, h, even_stride(w, me), even_stride(h, me)), w, h),
        forall|k: int|
            0 <= k < grid_seq(w, h, even_stride(w, me), even_stride(h, me)).len()
                ==> (#[trigger] grid_seq(w, h, even_stride(w, me), even_stride(h, me))[k]).width
                <= me && grid_seq(w, h, even_stride(w, me), even_stride(h, me))[k].height <= me,
{
    lemma_even_stride_bounds(w, me);
    lemma_even_stride_bounds(h, me);
    lemma_grid_exact(w, h, even_stride(w, me), even_stride(h, me));
}

/// An image no larger than the strides on either axis yields a plan of
/// exactly one tile: the full image.
pub proof fn lemma_single_tile(w: int, h: int, tw: int, th: int)
    requires
        0 < w <= tw <= u32::MAX,
        0 < h <= th <= u32::MAX,
    ensures
        grid_seq(w, h, tw, th).len() == 1,
        grid_seq(w, h, tw, th)[0] == (TileSpec {
            origin_x: 0,
            origin_y: 0,
            width: w as u32,
            height: h as u32,
        }),
{
    lemma_fundamental_div_mod_converse(w + tw - 1, tw, 1, w - 1);
    lemma_fundamental_div_mod_converse(h + th - 1, th, 1, h - 1);
    assert(split_count(w, tw) == 1);
    assert(split_count(h, th) == 1);
    assert(grid_seq(w, h, tw, th)[0] == grid_cell(w, h, tw, th, 0, 0));
}

/// Under either policy, an image within the maximum edge on both axes
/// yields a plan of exactly one tile equal to the full image.
pub proof fn lemma_small_image_one_tile(w: int, h: int, me: int)
    requires
        0 < w <= me <= u32::MAX,
        0 < h <= me,
    ensures
        grid_seq(w, h, me, me).len() == 1,
        grid_seq(w, h, me, me)[0] == (TileSpec {
            origin_x: 0,
            origin_y: 0,
            width: w as u32,
            height: h as u32,
        }),
        grid_seq(w, h, even_stride(w, me), even_stride(h, me)) == grid_seq(w, h, me, me),
{
    lemma_single_tile(w, h, me, me);
    lemma_even_stride_small(w, me);
    lemma_even_stride_small(h, me);
    lemma_single_tile(w, h, w, h);
    assert(grid_seq(w, h, w, h) =~= grid_seq(w, h, me, me));
}

} // verus!
