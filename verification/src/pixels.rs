//! Pixel buffers, tile extraction, and re-assembly.

use vstd::prelude::*;

verus! {

use vstd::arithmetic::div_mod::lemma_fundamental_div_mod;
use vstd::arithmetic::div_mod::lemma_fundamental_div_mod_converse;
use vstd::arithmetic::div_mod::lemma_mod_bound;
use crate::plan::TileSpec;
use crate::plan::plan_covers;
use crate::plan::plan_exact;

/// Byte `c` of the pixel at `(x, y)` in a row-major buffer of `w`-pixel
/// rows, four bytes per pixel.
pub open spec fn pix_at(data: Seq<u8>, w: int, x: int, y: int, c: int) -> u8 {
    data[4 * (y * w + x) + c]
}

/// A decoded image held as plain values: `height` rows of `width` pixels,
/// four bytes (one RGBA quadruple) per pixel, row-major.  Every image is
/// normalized to this one fixed format, whatever its source had.
pub struct PixelBuffer {
    pub width: u32,
    pub height: u32,
    pub data: Vec<u8>,
}

impl PixelBuffer {
    /// The buffer holds exactly its `width * height` pixels.
    pub open spec fn wf(self) -> bool {
        self.data@.len() == 4 * ((self.width as int) * (self.height as int))
    }

    /// Byte `c` of the pixel at `(x, y)`.
    pub open spec fn pix(self, x: int, y: int, c: int) -> u8 {
        pix_at(self.data@, self.width as int, x, y, c)
    }
}

/// The byte index of `(x, y, c)` lies inside a `w` by `h` buffer.
proof fn lemma_pix_index_bounds(w: int, h: int, x: int, y: int, c: int)
    by (nonlinear_arith)
    requires
        0 <= x < w,
        0 <= y < h,
        0 <= c < 4,
    ensures
        0 <= 4 * (y * w + x) + c,
        4 * (y * w + x) + c < 4 * (w * h),
        4 * (y * w + x) + c < 4 * (h * w),
{
}

/// A byte index inside a `w` by `h` buffer decomposes uniquely into a
/// pixel coordinate and a channel.
proof fn lemma_byte_decompose(w: int, h: int, j: int)
    requires
        0 < w,
        0 < h,
        0 <= j < 4 * (w * h),
    ensures
        0 <= j % 4 < 4,
        0 <= (j / 4) % w < w,
        0 <= (j / 4) / w < h,
        j == 4 * (((j / 4) / w) * w + (j / 4) % w) + j % 4,
{
    let c = j % 4;
    let p = j / 4;
    lemma_fundamental_div_mod(j, 4);
    lemma_mod_bound(j, 4);
    let x = p % w;
    let y = p / w;
    lemma_fundamental_div_mod(p, w);
    lemma_mod_bound(p, w);
    assert(w * y == y * w) by (nonlinear_arith);
    assert(y >= 0) by (nonlinear_arith)
        requires
            y * w + x == p,
            0 <= x < w,
            0 <= p,
            0 < w,
    ;
    assert(y < h) by (nonlinear_arith)
        requires
            y * w + x == p,
            0 <= x < w,
            4 * p + c == j,
            0 <= c,
            j < 4 * (w * h),
            0 < w,
    ;
}

/// Crop the rectangle `ts` out of `src`, producing a fresh buffer whose
/// pixel `(x, y)` is `src`'s pixel `(ts.origin_x + x, ts.origin_y + y)`.
pub fn crop(src: &PixelBuffer, ts: TileSpec) -> (r: PixelBuffer)
    requires
        src.wf(),
        ts.fits(src.width as int, src.height as int),
    ensures
        r.wf(),
        r.width == ts.width,
        r.height == ts.height,
        forall|x: int, y: int, c: int|
            0 <= x < ts.width && 0 <= y < ts.height && 0 <= c < 4 ==> #[trigger] r.pix(x, y, c)
                == src.pix(ts.origin_x + x, ts.origin_y + y, c),
{
    let w = src.width;
    let tw = ts.width;
    let th = ts.height;
    let n = src.data.len();
    let mut data: Vec<u8> = Vec::new();
    let mut y: u32 = 0;
    while y < th
        invariant
            src.wf(),
            ts.fits(src.width as int, src.height as int),
            w == src.width,
            tw == ts.width,
            th == ts.height,
            n == src.data@.len(),
            y <= th,
            data@.len() == 4 * (y * tw),
            forall|xx: int, yy: int, c: int|
                0 <= xx < tw && 0 <= yy < y && 0 <= c < 4 ==> #[trigger] pix_at(
                    data@,
                    tw as int,
                    xx,
                    yy,
                    c,
                ) == src.pix(ts.origin_x + xx, ts.origin_y + yy, c),
        decreases th - y,
    {
        let mut x: u32 = 0;
        while x < tw
            invariant
                src.wf(),
                ts.fits(src.width as int, src.height as int),
                w == src.width,
                tw == ts.width,
                th == ts.height,
                n == src.data@.len(),
                y < th,
                x <= tw,
                data@.len() == 4 * (y * tw + x),
                forall|xx: int, yy: int, c: int|
                    0 <= xx < tw && 0 <= yy < y && 0 <= c < 4 ==> #[trigger] pix_at(
                        data@,
                        tw as int,
                        xx,
                        yy,
                        c,
                    ) == src.pix(ts.origin_x + xx, ts.origin_y + yy, c),
                forall|xx: int, c: int|
                    0 <= xx < x && 0 <= c < 4 ==> #[trigger] pix_at(data@, tw as int, xx, y as int, c)
                        == src.pix(ts.origin_x + xx, ts.origin_y + y, c),
            decreases tw - x,
        {
            let sx = ts.origin_x + x;
            let sy = ts.origin_y + y;
            proof {
                lemma_pix_index_bounds(
                    src.width as int,
                    src.height as int,
                    sx as int,
                    sy as int,
                    3,
                );
            }
            let base: usize = 4 * ((sy as usize) * (w as usize) + (sx as usize));
            let ghost old_data = data@;
            data.push(src.data[base]);
            data.push(src.data[base + 1]);
            data.push(src.data[base + 2]);
            data.push(src.data[base + 3]);
            proof {
                assert forall|xx: int, yy: int, c: int|
                    0 <= xx < tw && 0 <= yy < y && 0 <= c < 4 implies #[trigger] pix_at(
                    data@,
                    tw as int,
                    xx,
                    yy,
                    c,
                ) == src.pix(ts.origin_x + xx, ts.origin_y + yy, c) by {
                    lemma_pix_index_bounds(tw as int, y as int, xx, yy, c);
                    assert(pix_at(old_data, tw as int, xx, yy, c) == src.pix(
                        ts.origin_x + xx,
                        ts.origin_y + yy,
                        c,
                    ));
                }
                assert forall|xx: int, c: int| 0 <= xx < x + 1 && 0 <= c < 4 implies #[trigger] pix_at(
                    data@,
                    tw as int,
                    xx,
                    y as int,
                    c,
                ) == src.pix(ts.origin_x + xx, ts.origin_y + y, c) by {
                    if xx < x {
                        lemma_pix_index_bounds(tw as int, (y + 1) as int, xx, y as int, c);
                        assert(4 * (y * tw + xx) + c < 4 * (y * tw + x));
                        assert(pix_at(old_data, tw as int, xx, y as int, c) == src.pix(
                            ts.origin_x + xx,
                            ts.origin_y + y,
                            c,
                        ));
                    } else {
                        assert(4 * (y * tw + xx) + c == old_data.len() + c);
                    }
                }
            }
            x = x + 1;
        }
        proof {
            assert((y + 1) * tw == y * tw + tw) by (nonlinear_arith);
        }
        y = y + 1;
    }
    proof {
        assert(th * tw == tw as int * th as int) by (nonlinear_arith);
    }
    PixelBuffer { width: tw, height: th, data }
}

/// One output region together with its cropped pixels.
pub struct Tile {
    pub region: TileSpec,
    pub pixels: PixelBuffer,
}

/// `t` is the crop of `src` at `t.region`: its buffer has the region's
/// size and holds exactly the region's pixels of `src`.
pub open spec fn is_crop_of(t: Tile, src: PixelBuffer) -> bool {
    &&& t.pixels.wf()
    &&& t.pixels.width == t.region.width
    &&& t.pixels.height == t.region.height
    &&& t.region.fits(src.width as int, src.height as int)
    &&& forall|x: int, y: int, c: int|
        0 <= x < t.region.width && 0 <= y < t.region.height && 0 <= c < 4
            ==> #[trigger] t.pixels.pix(x, y, c) == src.pix(
            t.region.origin_x + x,
            t.region.origin_y + y,
            c,
        )
}

/// The regions of a sequence of tiles, in order.
pub open spec fn regions(tiles: Seq<Tile>) -> Seq<TileSpec> {
    tiles.map_values(|t: Tile| t.region)
}

/// Crop every region of the plan out of `src`, in plan order.
pub fn extract(src: &PixelBuffer, plan: &Vec<TileSpec>) -> (r: Vec<Tile>)
    requires
        src.wf(),
        forall|k: int|
            0 <= k < plan@.len() ==> (#[trigger] plan@[k]).fits(
                src.width as int,
                src.height as int,
            ),
    ensures
        r@.len() == plan@.len(),
        forall|k: int|
            0 <= k < r@.len() ==> (#[trigger] r@[k]).region == plan@[k] && is_crop_of(r@[k], *src),
{
    let mut tiles: Vec<Tile> = Vec::new();
    let mut k: usize = 0;
    while k < plan.len()
        invariant
            src.wf(),
            forall|i: int|
                0 <= i < plan@.len() ==> (#[trigger] plan@[i]).fits(
                    src.width as int,
                    src.height as int,
                ),
            k <= plan@.len(),
            tiles@.len() == k,
            forall|i: int|
                0 <= i < k ==> (#[trigger] tiles@[i]).region == plan@[i] && is_crop_of(
                    tiles@[i],
                    *src,
                ),
        decreases plan@.len() - k,
    {
        let region = plan[k];
        let pixels = crop(src, region);
        tiles.push(Tile { region, pixels });
        k = k + 1;
    }
    tiles
}

/// Find the tile whose region contains `(px, py)`; the caller guarantees
/// that one exists.
fn find_covering(tiles: &Vec<Tile>, px: u32, py: u32) -> (k: usize)
    requires
        plan_covers(regions(tiles@), px as int, py as int),
    ensures
        k < tiles@.len(),
        tiles@[k as int].region.contains(px as int, py as int),
{
    let mut k: usize = 0;
    while k < tiles.len()
        invariant
            plan_covers(regions(tiles@), px as int, py as int),
            k <= tiles@.len(),
            forall|i: int|
                0 <= i < k ==> !(#[trigger] tiles@[i].region.contains(px as int, py as int)),
        decreases tiles@.len() - k,
    {
        let t = &tiles[k];
        if t.region.origin_x <= px && px - t.region.origin_x < t.region.width
            && t.region.origin_y <= py && py - t.region.origin_y < t.region.height {
            return k;
        }
        k = k + 1;
    }
    proof {
        let j = choose|j: int|
            0 <= j < regions(tiles@).len() && #[trigger] regions(tiles@)[j].contains(
                px as int,
                py as int,
            );
        assert(!tiles@[j].region.contains(px as int, py as int));
        assert(false);
    }
    vstd::pervasive::unreached()
}

/// The pixel an assembly of `tiles` shows at `(px, py)`: the pixel of the
/// tile whose region contains the point.  With an exact plan there is
/// exactly one such tile.
pub open spec fn assembled_pix(tiles: Seq<Tile>, px: int, py: int, c: int) -> u8 {
    let k = choose|k: int| 0 <= k < tiles.len() && (#[trigger] tiles[k].region).contains(px, py);
    tiles[k].pixels.pix(px - tiles[k].region.origin_x, py - tiles[k].region.origin_y, c)
}

/// Re-assemble a full image from tiles whose regions partition it
/// exactly, placing each tile's pixels at its region's origin.
pub fn assemble(tiles: &Vec<Tile>, width: u32, height: u32) -> (r: PixelBuffer)
    requires
        0 < width,
        0 < height,
        plan_exact(regions(tiles@), width as int, height as int),
        forall|k: int|
            0 <= k < tiles@.len() ==> (#[trigger] tiles@[k]).pixels.wf() && tiles@[k].pixels.width
                == tiles@[k].region.width && tiles@[k].pixels.height == tiles@[k].region.height,
    ensures
        r.wf(),
        r.width == width,
        r.height == height,
        forall|k: int, x: int, y: int, c: int|
            0 <= k < tiles@.len() && 0 <= x < tiles@[k].region.width && 0 <= y
                < tiles@[k].region.height && 0 <= c < 4 ==> #[trigger] tiles@[k].pixels.pix(x, y, c)
                == r.pix(tiles@[k].region.origin_x + x, tiles@[k].region.origin_y + y, c),
{
    let mut data: Vec<u8> = Vec::new();
    let mut y: u32 = 0;
    while y < height
        invariant
            0 < width,
            0 < height,
            plan_exact(regions(tiles@), width as int, height as int),
            forall|k: int|
                0 <= k < tiles@.len() ==> (#[trigger] tiles@[k]).pixels.wf()
                    && tiles@[k].pixels.width == tiles@[k].region.width
                    && tiles@[k].pixels.height == tiles@[k].region.height,
            y <= height,
            data@.len() == 4 * (y * width),
            forall|xx: int, yy: int, c: int|
                0 <= xx < width && 0 <= yy < y && 0 <= c < 4 ==> #[trigger] pix_at(
                    data@,
                    width as int,
                    xx,
                    yy,
                    c,
                ) == assembled_pix(tiles@, xx, yy, c),
        decreases height - y,
    {
        let mut x: u32 = 0;
        while x < width
            invariant
                0 < width,
                0 < height,
                plan_exact(regions(tiles@), width as int, height as int),
                forall|k: int|
                    0 <= k < tiles@.len() ==> (#[trigger] tiles@[k]).pixels.wf()
                        && tiles@[k].pixels.width == tiles@[k].region.width
                        && tiles@[k].pixels.height == tiles@[k].region.height,
                y < height,
                x <= width,
                data@.len() == 4 * (y * width + x),
                forall|xx: int, yy: int, c: int|
                    0 <= xx < width && 0 <= yy < y && 0 <= c < 4 ==> #[trigger] pix_at(
                        data@,
                        width as int,
                        xx,
                        yy,
                        c,
                    ) == assembled_pix(tiles@, xx, yy, c),
                forall|xx: int, c: int|
                    0 <= xx < x && 0 <= c < 4 ==> #[trigger] pix_at(
                        data@,
                        width as int,
                        xx,
                        y as int,
                        c,
                    ) == assembled_pix(tiles@, xx, y as int, c),
            decreases width - x,
        {
            let k = find_covering(tiles, x, y);
            let t = &tiles[k];
            let tx = x - t.region.origin_x;
            let ty = y - t.region.origin_y;
            proof {
                lemma_pix_index_bounds(
                    t.pixels.width as int,
                    t.pixels.height as int,
                    tx as int,
                    ty as int,
                    3,
                );
            }
            let n = t.pixels.data.len();
            let base: usize = 4 * ((ty as usize) * (t.pixels.width as usize) + (tx as usize));
            let ghost old_data = data@;
            data.push(t.pixels.data[base]);
            data.push(t.pixels.data[base + 1]);
            data.push(t.pixels.data[base + 2]);
            data.push(t.pixels.data[base + 3]);
            proof {
                assert forall|c: int| 0 <= c < 4 implies pix_at(data@, width as int, x as int, y as int, c)
                    == assembled_pix(tiles@, x as int, y as int, c) by {
                    let kk = choose|kk: int|
                        0 <= kk < tiles@.len() && (#[trigger] tiles@[kk].region).contains(
                            x as int,
                            y as int,
                        );
                    assert(regions(tiles@)[k as int].contains(x as int, y as int));
                    assert(regions(tiles@)[kk].contains(x as int, y as int));
                    assert(kk == k as int);
                    assert(data@[old_data.len() + c] == t.pixels.pix(tx as int, ty as int, c));
                }
                assert forall|xx: int, yy: int, c: int|
                    0 <= xx < width && 0 <= yy < y && 0 <= c < 4 implies #[trigger] pix_at(
                    data@,
                    width as int,
                    xx,
                    yy,
                    c,
                ) == assembled_pix(tiles@, xx, yy, c) by {
                    lemma_pix_index_bounds(width as int, y as int, xx, yy, c);
                    assert(pix_at(old_data, width as int, xx, yy, c) == assembled_pix(
                        tiles@,
                        xx,
                        yy,
                        c,
                    ));
                }
                assert forall|xx: int, c: int| 0 <= xx < x + 1 && 0 <= c < 4 implies #[trigger] pix_at(
                    data@,
                    width as int,
                    xx,
                    y as int,
                    c,
                ) == assembled_pix(tiles@, xx, y as int, c) by {
                    if xx < x {
                        lemma_pix_index_bounds(width as int, (y + 1) as int, xx, y as int, c);
                        assert(4 * (y * width + xx) + c < 4 * (y * width + x));
                        assert(pix_at(old_data, width as int, xx, y as int, c) == assembled_pix(
                            tiles@,
                            xx,
                            y as int,
                            c,
                        ));
                    } else {
                        assert(4 * (y * width + xx) + c == old_data.len() + c);
                    }
                }
            }
            x = x + 1;
        }
        proof {
            assert((y + 1) * width == y * width + width) by (nonlinear_arith);
        }
        y = y + 1;
    }
    let r = PixelBuffer { width, height, data };
    proof {
        assert(height * width == width as int * height as int) by (nonlinear_arith);
        assert forall|k: int, x: int, y: int, c: int|
            0 <= k < tiles@.len() && 0 <= x < tiles@[k].region.width && 0 <= y
                < tiles@[k].region.height && 0 <= c < 4 implies #[trigger] tiles@[k].pixels.pix(
            x,
            y,
            c,
        ) == r.pix(tiles@[k].region.origin_x + x, tiles@[k].region.origin_y + y, c) by {
            let px = tiles@[k].region.origin_x + x;
            let py = tiles@[k].region.origin_y + y;
            assert(regions(tiles@)[k].fits(width as int, height as int));
            assert(regions(tiles@)[k].contains(px, py));
            assert(pix_at(data@, width as int, px, py, c) == assembled_pix(tiles@, px, py, c));
            let kk = choose|kk: int|
                0 <= kk < tiles@.len() && (#[trigger] tiles@[kk].region).contains(px, py);
            assert(regions(tiles@)[kk].contains(px, py));
            assert(kk == k);
        }
    }
    r
}

/// Cut an image along an exact plan and re-assemble the tiles: the result
/// is provably the original buffer, byte for byte, under either policy.
pub fn reassemble(src: &PixelBuffer, plan: &Vec<TileSpec>) -> (r: PixelBuffer)
    requires
        src.wf(),
        0 < src.width,
        0 < src.height,
        plan_exact(plan@, src.width as int, src.height as int),
    ensures
        r.width == src.width,
        r.height == src.height,
        r.data@ == src.data@,
{
    let tiles = extract(src, plan);
    proof {
        assert(regions(tiles@) =~= plan@);
    }
    let r = assemble(&tiles, src.width, src.height);
    proof {
        lemma_round_trip(*src, plan@, tiles@, r);
    }
    r
}

/// Re-assembling the tiles extracted from an image under an exact plan
/// reproduces the original pixel buffer, byte for byte.
pub proof fn lemma_round_trip(src: PixelBuffer, plan: Seq<TileSpec>, tiles: Seq<Tile>, out: PixelBuffer)
    requires
        src.wf(),
        0 < src.width,
        0 < src.height,
        plan_exact(plan, src.width as int, src.height as int),
        tiles.len() == plan.len(),
        forall|k: int|
            0 <= k < tiles.len() ==> (#[trigger] tiles[k]).region == plan[k] && is_crop_of(
                tiles[k],
                src,
            ),
        out.wf(),
        out.width == src.width,
        out.height == src.height,
        forall|k: int, x: int, y: int, c: int|
            0 <= k < tiles.len() && 0 <= x < tiles[k].region.width && 0 <= y
                < tiles[k].region.height && 0 <= c < 4 ==> #[trigger] tiles[k].pixels.pix(x, y, c)
                == out.pix(tiles[k].region.origin_x + x, tiles[k].region.origin_y + y, c),
    ensures
        out.data@ == src.data@,
{
    let w = src.width as int;
    let h = src.height as int;
    assert(regions(tiles) =~= plan);
    assert forall|j: int| 0 <= j < src.data@.len() implies out.data@[j] == src.data@[j] by {
        lemma_byte_decompose(w, h, j);
        let c = j % 4;
        let x = (j / 4) % w;
        let y = (j / 4) / w;
        assert(plan_covers(plan, x, y));
        let k = choose|k: int| 0 <= k < plan.len() && #[trigger] plan[k].contains(x, y);
        let ox = plan[k].origin_x as int;
        let oy = plan[k].origin_y as int;
        assert(tiles[k].pixels.pix(x - ox, y - oy, c) == src.pix(x, y, c));
        assert(tiles[k].pixels.pix(x - ox, y - oy, c) == out.pix(x, y, c));
        assert(out.pix(x, y, c) == out.data@[j]);
        assert(src.pix(x, y, c) == src.data@[j]);
    }
    assert(out.data@ =~= src.data@);
}

} // verus!
