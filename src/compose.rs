use vstd::prelude::*;
use crate::geometry::{Point, Region, SheetItem, SpriteGlobal};
use crate::raster::{Raster, crop, crop_cells, crop_dims, flip_horizontal, copy_from, lemma_grid_index};

verus! {

/// What `image::Rgba::blend` makes of `top` drawn over `bottom` (source-over
/// alpha compositing, computed in floating point).
pub uninterp spec fn blend_of(bottom: Seq<u8>, top: Seq<u8>) -> Seq<u8>;

/// Relies on `image::Pixel::blend` for `Rgba<u8>`: the result depends on the
/// two pixels alone.
#[verifier::external_body]
fn blend_pixel(bottom: [u8; 4], top: [u8; 4]) -> (r: [u8; 4])
    ensures
        r@ == blend_of(bottom@, top@),
{
    let mut b = image::Rgba(bottom);
    image::Pixel::blend(&mut b, &image::Rgba(top));
    b.0
}

/// The mask that `imageproc::drawing::draw_convex_polygon_mut` draws, in
/// value 255 on a zeroed `w` × `h` gray image, for the polygon through
/// `points`: its values in row-major order.
pub uninterp spec fn convex_mask(w: u32, h: u32, points: Seq<(i32, i32)>) -> Seq<u8>;

/// The vertices as coordinate pairs.
pub open spec fn point_pairs(points: Seq<Point>) -> Seq<(i32, i32)> {
    points.map_values(|p: Point| (p.x, p.y))
}

/// Coordinates that the polygon fill can take without overflow.
pub open spec fn drawable(points: Seq<Point>) -> bool {
    forall|k: int|
        0 <= k < points.len() ==> -0x3FFF_FFFF <= (#[trigger] points[k]).x <= 0x3FFF_FFFF
            && -0x3FFF_FFFF <= points[k].y <= 0x3FFF_FFFF
}

/// Relies on `imageproc::drawing::draw_convex_polygon_mut` drawing on a
/// `GrayImage::new(w, h)`: the mask depends on its arguments alone and has
/// one value per pixel. It panics where the first and last points are equal
/// and, for a non-empty polygon, on an image without area.
#[verifier::external_body]
fn polygon_mask(w: u32, h: u32, points: &Vec<Point>) -> (r: Vec<u8>)
    requires
        points@.len() > 0 ==> points@[0] != points@[points@.len() - 1],
        1 <= w <= i32::MAX,
        1 <= h <= i32::MAX,
        w as nat * h as nat <= usize::MAX,
        drawable(points@),
    ensures
        r@ == convex_mask(w, h, point_pairs(points@)),
        r@.len() == w as nat * h as nat,
{
    let poly: Vec<imageproc::drawing::Point<i32>> = points.iter().map(
        |p| imageproc::drawing::Point::new(p.x, p.y),
    ).collect();
    let mut mask = image::GrayImage::new(w, h);
    imageproc::drawing::draw_convex_polygon_mut(&mut mask, &poly, image::Luma([255u8]));
    mask.into_raw()
}

/// Whether the mask value at column `x`, row `y` of a `w`-wide mask is set.
pub open spec fn opaque(mask: Seq<u8>, w: nat, x: int, y: int) -> bool {
    mask[y * w + x] != 0
}

/// `b` is the half-open bounding box (x0, y0, x1, y1) of the set values of a
/// `w` × `h` mask, or all zeros where no value is set.
pub open spec fn is_mask_bbox(mask: Seq<u8>, w: nat, h: nat, b: (u32, u32, u32, u32)) -> bool {
    if exists|x: int, y: int| 0 <= x < w && 0 <= y < h && opaque(mask, w, x, y) {
        &&& b.0 < b.2 <= w
        &&& b.1 < b.3 <= h
        &&& forall|x: int, y: int|
            0 <= x < w && 0 <= y < h && opaque(mask, w, x, y) ==> b.0 <= x < b.2 && b.1 <= y < b.3
        &&& exists|y: int| 0 <= y < h && #[trigger] opaque(mask, w, b.0 as int, y)
        &&& exists|x: int| 0 <= x < w && #[trigger] opaque(mask, w, x, b.1 as int)
        &&& exists|y: int| 0 <= y < h && #[trigger] opaque(mask, w, b.2 - 1, y)
        &&& exists|x: int| 0 <= x < w && #[trigger] opaque(mask, w, x, b.3 - 1)
    } else {
        b == (0u32, 0u32, 0u32, 0u32)
    }
}

/// The bounding box of the set values of a `w` × `h` mask (see `is_mask_bbox`).
pub open spec fn mask_bbox(mask: Seq<u8>, w: nat, h: nat) -> (u32, u32, u32, u32) {
    choose|b: (u32, u32, u32, u32)| is_mask_bbox(mask, w, h, b)
}

proof fn lemma_mask_bbox_unique(mask: Seq<u8>, w: nat, h: nat, b: (u32, u32, u32, u32))
    requires
        is_mask_bbox(mask, w, h, b),
    ensures
        mask_bbox(mask, w, h) == b,
{
    let c = mask_bbox(mask, w, h);
    assert(is_mask_bbox(mask, w, h, c));
    if exists|x: int, y: int| 0 <= x < w && 0 <= y < h && opaque(mask, w, x, y) {
        let y0 = choose|y: int| 0 <= y < h && #[trigger] opaque(mask, w, b.0 as int, y);
        let y1 = choose|y: int| 0 <= y < h && #[trigger] opaque(mask, w, c.0 as int, y);
        assert(c.0 <= b.0 && b.0 <= c.0);
        let x0 = choose|x: int| 0 <= x < w && #[trigger] opaque(mask, w, x, b.1 as int);
        let x1 = choose|x: int| 0 <= x < w && #[trigger] opaque(mask, w, x, c.1 as int);
        assert(c.1 <= b.1 && b.1 <= c.1);
        let y2 = choose|y: int| 0 <= y < h && #[trigger] opaque(mask, w, b.2 - 1, y);
        let y3 = choose|y: int| 0 <= y < h && #[trigger] opaque(mask, w, c.2 - 1, y);
        assert(c.2 - 1 >= b.2 - 1 && b.2 - 1 >= c.2 - 1);
        let x2 = choose|x: int| 0 <= x < w && #[trigger] opaque(mask, w, x, b.3 - 1);
        let x3 = choose|x: int| 0 <= x < w && #[trigger] opaque(mask, w, x, c.3 - 1);
        assert(c.3 - 1 >= b.3 - 1 && b.3 - 1 >= c.3 - 1);
    }
}

/// Returns the bounding box of a `width` × `height` mask that leaves out
/// its zero values, as (x0, y0, x1, y1) with x1 and y1 exclusive, so that
/// (x0, y0, x1 − x0, y1 − y0) is a crop rectangle. An empty mask gives
/// (0, 0, 0, 0).
pub fn get_bbox(mask: &Vec<u8>, width: u32, height: u32) -> (r: (u32, u32, u32, u32))
    requires
        mask@.len() == width as nat * height as nat,
    ensures
        is_mask_bbox(mask@, width as nat, height as nat, r),
        r == mask_bbox(mask@, width as nat, height as nat),
{
    let ghost w = width as nat;
    let ghost h = height as nat;
    let n = mask.len();
    let mut found = false;
    let mut min_x: u32 = 0;
    let mut min_y: u32 = 0;
    let mut max_x: u32 = 0;
    let mut max_y: u32 = 0;
    let ghost mut wit: (int, int, int, int) = (0, 0, 0, 0);
    let mut y: u32 = 0;
    while y < height
        invariant
            n == mask@.len(),
            mask@.len() == w * h,
            w == width,
            h == height,
            y <= height,
            !found ==> forall|xx: int, yy: int|
                0 <= xx < w && 0 <= yy < y ==> !opaque(mask@, w, xx, yy),
            found ==> {
                &&& min_x <= max_x < w
                &&& min_y <= max_y < y
                &&& forall|xx: int, yy: int|
                    0 <= xx < w && 0 <= yy < y && opaque(mask@, w, xx, yy) ==> min_x <= xx <= max_x
                        && min_y <= yy <= max_y
                &&& 0 <= wit.0 < h && opaque(mask@, w, min_x as int, wit.0)
                &&& 0 <= wit.1 < w && opaque(mask@, w, wit.1, min_y as int)
                &&& 0 <= wit.2 < h && opaque(mask@, w, max_x as int, wit.2)
                &&& 0 <= wit.3 < w && opaque(mask@, w, wit.3, max_y as int)
            },
        decreases height - y,
    {
        let mut x: u32 = 0;
        while x < width
            invariant
                n == mask@.len(),
                mask@.len() == w * h,
                w == width,
                h == height,
                y < height,
                x <= width,
                !found ==> forall|xx: int, yy: int|
                    0 <= xx < w && (0 <= yy < y || (yy == y && xx < x)) ==> !opaque(mask@, w, xx, yy),
                found ==> {
                    &&& min_x <= max_x < w
                    &&& min_y <= max_y <= y
                    &&& forall|xx: int, yy: int|
                        0 <= xx < w && (0 <= yy < y || (yy == y && xx < x)) && opaque(mask@, w, xx, yy)
                            ==> min_x <= xx <= max_x && min_y <= yy <= max_y
                    &&& 0 <= wit.0 < h && opaque(mask@, w, min_x as int, wit.0)
                    &&& 0 <= wit.1 < w && opaque(mask@, w, wit.1, min_y as int)
                    &&& 0 <= wit.2 < h && opaque(mask@, w, max_x as int, wit.2)
                    &&& 0 <= wit.3 < w && opaque(mask@, w, wit.3, max_y as int)
                },
            decreases width - x,
        {
            proof {
                lemma_grid_index(width as int, height as int, x as int, y as int);
            }
            if mask[y as usize * width as usize + x as usize] != 0 {
                if !found {
                    found = true;
                    min_x = x;
                    max_x = x;
                    min_y = y;
                    max_y = y;
                    proof {
                        wit = (y as int, x as int, y as int, x as int);
                    }
                } else {
                    if x < min_x {
                        min_x = x;
                        proof {
                            wit.0 = y as int;
                        }
                    }
                    if x > max_x {
                        max_x = x;
                        proof {
                            wit.2 = y as int;
                        }
                    }
                    if y > max_y {
                        max_y = y;
                        proof {
                            wit.3 = x as int;
                        }
                    }
                }
            }
            x = x + 1;
        }
        y = y + 1;
    }
    let r = if found {
        (min_x, min_y, max_x + 1, max_y + 1)
    } else {
        (0u32, 0u32, 0u32, 0u32)
    };
    proof {
        if found {
            assert(exists|xx: int, yy: int| 0 <= xx < w && 0 <= yy < h && opaque(mask@, w, xx, yy)) by {
                assert(opaque(mask@, w, min_x as int, wit.0));
            }
            assert(r.0 == min_x);
            assert(opaque(mask@, w, r.0 as int, wit.0));
            assert(exists|yy: int| 0 <= yy < h && #[trigger] opaque(mask@, w, r.0 as int, yy));
            assert(opaque(mask@, w, wit.1, r.1 as int));
            assert(exists|xx: int| 0 <= xx < w && #[trigger] opaque(mask@, w, xx, r.1 as int));
            assert(opaque(mask@, w, r.2 - 1, wit.2));
            assert(exists|yy: int| 0 <= yy < h && #[trigger] opaque(mask@, w, r.2 - 1, yy));
            assert(opaque(mask@, w, wit.3, r.3 - 1));
            assert(exists|xx: int| 0 <= xx < w && #[trigger] opaque(mask@, w, xx, r.3 - 1));
        }
        lemma_mask_bbox_unique(mask@, w, h, r);
    }
    r
}

/// How far `top`, placed at (`x`, `y`), overlaps `bottom`: the width and
/// height of the overlap measured from (`x`, `y`).
pub open spec fn overlay_range(bottom: nat, top: nat, at: nat) -> nat {
    let end = if top + at < bottom { top + at } else { bottom };
    if end > at { (end - at) as nat } else { 0 }
}

/// Draws `top` over `bottom` with its corner at (`x`, `y`), blending each
/// pixel of the overlap whose mask value is not zero. `mask` is laid over
/// `bottom` and has its size.
pub fn masked_overlay(bottom: &mut Raster, top: &Raster, x: u32, y: u32, mask: &Vec<u8>)
    requires
        old(bottom).wf(),
        top.wf(),
        mask@.len() == old(bottom).width as nat * old(bottom).height as nat,
    ensures
        final(bottom).wf(),
        final(bottom).width == old(bottom).width,
        final(bottom).height == old(bottom).height,
        forall|i: int, j: int|
            0 <= i < old(bottom).width && 0 <= j < old(bottom).height ==> (#[trigger] final(bottom).at(i, j))@
                == if x <= i < x + overlay_range(old(bottom).width as nat, top.width as nat, x as nat)
                && y <= j < y + overlay_range(old(bottom).height as nat, top.height as nat, y as nat)
                && opaque(mask@, old(bottom).width as nat, i, j) {
                blend_of(old(bottom).at(i, j)@, top.at(i - x, j - y)@)
            } else {
                old(bottom).at(i, j)@
            },
{
    let w = bottom.width;
    let h = bottom.height;
    let n = bottom.pixels.len();
    let tn = top.pixels.len();
    let end_x: u64 = if (top.width as u64 + x as u64) < w as u64 { top.width as u64 + x as u64 } else { w as u64 };
    let range_w: u32 = if end_x > x as u64 { (end_x - x as u64) as u32 } else { 0 };
    let end_y: u64 = if (top.height as u64 + y as u64) < h as u64 { top.height as u64 + y as u64 } else { h as u64 };
    let range_h: u32 = if end_y > y as u64 { (end_y - y as u64) as u32 } else { 0 };
    let mut ty: u32 = 0;
    while ty < range_h
        invariant
            n == bottom.pixels@.len(),
            tn == top.pixels@.len(),
            w == bottom.width,
            h == bottom.height,
            w == old(bottom).width,
            h == old(bottom).height,
            bottom.wf(),
            top.wf(),
            mask@.len() == w as nat * h as nat,
            range_w == overlay_range(w as nat, top.width as nat, x as nat),
            range_h == overlay_range(h as nat, top.height as nat, y as nat),
            range_w == 0 || x + range_w <= w,
            range_h == 0 || y + range_h <= h,
            range_w <= top.width,
            range_h <= top.height,
            ty <= range_h,
            forall|i: int, j: int|
                0 <= i < w && 0 <= j < h ==> (#[trigger] bottom.at(i, j))@ == if x <= i < x + range_w
                    && y <= j < y + ty && opaque(mask@, w as nat, i, j) {
                    blend_of(old(bottom).at(i, j)@, top.at(i - x, j - y)@)
                } else {
                    old(bottom).at(i, j)@
                },
        decreases range_h - ty,
    {
        let mut tx: u32 = 0;
        while tx < range_w
            invariant
                n == bottom.pixels@.len(),
                tn == top.pixels@.len(),
                w == bottom.width,
                h == bottom.height,
                w == old(bottom).width,
                h == old(bottom).height,
                bottom.wf(),
                top.wf(),
                mask@.len() == w as nat * h as nat,
                range_w == 0 || x + range_w <= w,
                y + range_h <= h,
                range_w <= top.width,
                range_h <= top.height,
                ty < range_h,
                tx <= range_w,
                forall|i: int, j: int|
                    0 <= i < w && 0 <= j < h ==> (#[trigger] bottom.at(i, j))@ == if ((x <= i < x
                        + range_w && y <= j < y + ty) || (j == y + ty && x <= i < x + tx)) && opaque(
                        mask@,
                        w as nat,
                        i,
                        j,
                    ) {
                        blend_of(old(bottom).at(i, j)@, top.at(i - x, j - y)@)
                    } else {
                        old(bottom).at(i, j)@
                    },
            decreases range_w - tx,
        {
            proof {
                lemma_grid_index(w as int, h as int, (x + tx) as int, (y + ty) as int);
                lemma_grid_index(top.width as int, top.height as int, tx as int, ty as int);
            }
            let k = (y + ty) as usize * w as usize + (x + tx) as usize;
            if mask[k] != 0 {
                let below = bottom.pixels[k];
                let above = top.pixels[ty as usize * top.width as usize + tx as usize];
                let p = blend_pixel(below, above);
                let ghost prev = *bottom;
                bottom.pixels.set(k, p);
                proof {
                    assert forall|i: int, j: int| 0 <= i < w && 0 <= j < h implies (#[trigger] bottom.at(
                        i,
                        j,
                    ))@ == if ((x <= i < x + range_w && y <= j < y + ty) || (j == y + ty && x <= i < x
                        + tx + 1)) && opaque(mask@, w as nat, i, j) {
                        blend_of(old(bottom).at(i, j)@, top.at(i - x, j - y)@)
                    } else {
                        old(bottom).at(i, j)@
                    } by {
                        lemma_grid_index(w as int, h as int, i, j);
                        if i != x + tx || j != y + ty {
                            assert(j * w + i != k);
                            assert(bottom.at(i, j) == prev.at(i, j));
                        } else {
                            assert(prev.at(i, j) == old(bottom).at(i, j));
                        }
                    }
                }
            } else {
                proof {
                    assert forall|i: int, j: int| 0 <= i < w && 0 <= j < h implies (#[trigger] bottom.at(
                        i,
                        j,
                    ))@ == if ((x <= i < x + range_w && y <= j < y + ty) || (j == y + ty && x <= i < x
                        + tx + 1)) && opaque(mask@, w as nat, i, j) {
                        blend_of(old(bottom).at(i, j)@, top.at(i - x, j - y)@)
                    } else {
                        old(bottom).at(i, j)@
                    } by {
                        lemma_grid_index(w as int, h as int, i, j);
                    }
                }
            }
            tx = tx + 1;
        }
        ty = ty + 1;
    }
}

/// Whether a region's polygon can be cut out of a `w` × `h` sheet: it has
/// points, its first and last points differ, the sheet has area, and the
/// coordinates are small enough to fill.
pub open spec fn piece_possible(points: Seq<Point>, w: u32, h: u32) -> bool {
    &&& points.len() > 0
    &&& points[0] != points[points.len() - 1]
    &&& 1 <= w <= i32::MAX
    &&& 1 <= h <= i32::MAX
    &&& w as nat * h as nat <= usize::MAX
    &&& drawable(points)
}

/// The pixel at column `i`, row `j` of the piece cut from `img` through
/// `mask` (a `w`-wide mask whose bounding box is `b`): the sheet pixel
/// under it blended over transparency where the mask is set and the sheet
/// has the pixel, else transparent. Mirrored pieces read their columns
/// right to left.
pub open spec fn piece_pixel(
    img: Raster,
    mask: Seq<u8>,
    w: nat,
    b: (u32, u32, u32, u32),
    mirrored: bool,
    i: int,
    j: int,
) -> Seq<u8> {
    let si = if mirrored { b.2 - b.0 - 1 - i } else { i };
    let sx = b.0 + si;
    let sy = b.1 + j;
    if sx < img.width && sy < img.height && opaque(mask, w, sx, sy) {
        blend_of(seq![0u8, 0u8, 0u8, 0u8], img.at(sx, sy)@)
    } else {
        seq![0u8, 0u8, 0u8, 0u8]
    }
}

/// `p` is the piece of `region` cut from `sheet_img` (see `piece_pixel`).
pub open spec fn is_region_piece(sheet_img: Raster, sheet: SheetItem, region: Region, p: Raster) -> bool {
    let m = convex_mask(sheet.x, sheet.y, point_pairs(region.sheet_points@));
    let b = mask_bbox(m, sheet.x as nat, sheet.y as nat);
    &&& p.wf()
    &&& p.width == b.2 - b.0
    &&& p.height == b.3 - b.1
    &&& forall|i: int, j: int|
        0 <= i < p.width && 0 <= j < p.height ==> (#[trigger] p.at(i, j))@ == piece_pixel(
            sheet_img,
            m,
            sheet.x as nat,
            b,
            region.mirroring == 1,
            i,
            j,
        )
}

/// Cutting the same region out of the same sheet twice gives the same piece.
pub proof fn lemma_region_piece_deterministic(
    sheet_img: Raster,
    sheet: SheetItem,
    region: Region,
    p1: Raster,
    p2: Raster,
)
    requires
        is_region_piece(sheet_img, sheet, region, p1),
        is_region_piece(sheet_img, sheet, region, p2),
    ensures
        p1.view_of() == p2.view_of(),
{
    let w = p1.width as int;
    assert forall|k: int| 0 <= k < p1.pixels@.len() implies p1.pixels@[k]@ == p2.pixels@[k]@ by {
        let i = k % w;
        let j = k / w;
        assert(w > 0) by (nonlinear_arith)
            requires 0 <= k < p1.pixels@.len(), p1.pixels@.len() == w * p1.height;
        assert(j < p1.height) by (nonlinear_arith)
            requires 0 <= k < w * p1.height, j == k / w, w > 0;
        assert(0 <= i < w && 0 <= j);
        assert(j * w + i == k) by (nonlinear_arith)
            requires i == k % w, j == k / w, w > 0;
        assert(p1.at(i, j)@ == p2.at(i, j)@);
    }
    assert(p1.view_of().2 =~= p2.view_of().2);
}

/// Cuts a region out of its sheet: the region's polygon is filled into a
/// mask the size of the sheet, the sheet image is cut to the mask's
/// bounding box and drawn through the mask onto transparency, and the
/// result is mirrored where the region is.
///
/// `None` where the polygon is degenerate (no points, or its first and last
/// points are equal) or cannot be filled on the sheet.
pub fn region_piece(sheet_img: &Raster, sheet: &SheetItem, region: &Region) -> (r: Option<Raster>)
    requires
        sheet_img.wf(),
        region.wf(),
    ensures
        r is Some <==> piece_possible(region.sheet_points@, sheet.x, sheet.y),
        r matches Some(p) ==> is_region_piece(*sheet_img, *sheet, *region, p),
{
    let n = region.sheet_points.len();
    if n == 0 {
        return None;
    }
    if region.sheet_points[0] == region.sheet_points[n - 1] {
        return None;
    }
    let w = sheet.x;
    let h = sheet.y;
    if w == 0 || h == 0 || w > i32::MAX as u32 || h > i32::MAX as u32 {
        return None;
    }
    assert(w as u64 * h as u64 <= 0xFFFF_FFFF * 0xFFFF_FFFF) by (nonlinear_arith)
        requires w <= 0xFFFF_FFFF, h <= 0xFFFF_FFFF;
    if w as u64 * h as u64 > usize::MAX as u64 {
        return None;
    }
    let mut k: usize = 0;
    while k < n
        invariant
            n == region.sheet_points@.len(),
            k <= n,
            forall|q: int|
                0 <= q < k ==> -0x3FFF_FFFF <= (#[trigger] region.sheet_points@[q]).x <= 0x3FFF_FFFF
                    && -0x3FFF_FFFF <= region.sheet_points@[q].y <= 0x3FFF_FFFF,
        decreases n - k,
    {
        let p = region.sheet_points[k];
        if p.x < -0x3FFF_FFFF || p.x > 0x3FFF_FFFF || p.y < -0x3FFF_FFFF || p.y > 0x3FFF_FFFF {
            return None;
        }
        k = k + 1;
    }
    let mask = polygon_mask(w, h, &region.sheet_points);
    let ghost m = mask@;
    let b = get_bbox(&mask, w, h);
    let tw = b.2 - b.0;
    let th = b.3 - b.1;
    proof {
        assert(tw as nat * th as nat <= w as nat * h as nat) by (nonlinear_arith)
            requires tw <= w, th <= h;
    }
    let cropped_mask = crop_cells(&mask, w, h, b.0, b.1, tw, th);
    assert(crop_dims(w, h, b.0, b.1, tw, th) == (b.0, b.1, tw, th));
    let copy_img = crop(sheet_img, b.0, b.1, tw, th);
    let ghost cd = crop_dims(sheet_img.width, sheet_img.height, b.0, b.1, tw, th);
    let mut piece = Raster::transparent(tw, th);
    let ghost blank = piece;
    masked_overlay(&mut piece, &copy_img, 0, 0, &cropped_mask);
    proof {
        assert forall|i: int, j: int| 0 <= i < tw && 0 <= j < th implies (#[trigger] piece.at(i, j))@
            == piece_pixel(*sheet_img, m, w as nat, b, false, i, j) by {
            lemma_grid_index(tw as int, th as int, i, j);
            assert(blank.at(i, j) == [0u8, 0u8, 0u8, 0u8]);
            assert([0u8, 0u8, 0u8, 0u8]@ =~= seq![0u8, 0u8, 0u8, 0u8]);
            assert(cropped_mask@[j * tw + i] == m[(b.1 + j) * w + b.0 + i]);
            if b.0 + i < sheet_img.width && b.1 + j < sheet_img.height {
                assert(cd.0 == b.0 && cd.1 == b.1);
                assert(i < cd.2 && j < cd.3);
                assert(copy_img.at(i, j) == sheet_img.at(b.0 + i, b.1 + j));
            } else {
                assert(!(i < cd.2 && j < cd.3));
            }
        }
    }
    if region.mirroring == 1 {
        let ghost before = piece;
        flip_horizontal(&mut piece);
        proof {
            assert forall|i: int, j: int| 0 <= i < tw && 0 <= j < th implies (#[trigger] piece.at(
                i,
                j,
            ))@ == piece_pixel(*sheet_img, m, w as nat, b, true, i, j) by {
                assert(piece.at(i, j) == before.at(tw - 1 - i, j));
                assert(before.at(tw - 1 - i, j)@ == piece_pixel(*sheet_img, m, w as nat, b, false, tw - 1 - i, j));
            }
        }
    }
    Some(piece)
}

/// Where a region's piece goes on the canvas: the pivot's position minus
/// the region's own zero point.
pub open spec fn paste_origin(g: SpriteGlobal, region: Region) -> (int, int) {
    (g.global_zero_x - region.region_zero_x, g.global_zero_y - region.region_zero_y)
}

/// The pixels of a `w` × `h` canvas `c` once `piece` is copied onto it with
/// its top-left corner at (`px`, `py`); unchanged where it does not fit.
pub open spec fn pasted(c: Seq<[u8; 4]>, w: nat, h: nat, piece: Raster, px: int, py: int) -> Seq<
    [u8; 4],
> {
    if 0 <= px && 0 <= py && piece.width + px <= w && piece.height + py <= h {
        Seq::new(
            c.len(),
            |k: int|
                {
                    let i = k % (w as int);
                    let j = k / (w as int);
                    if px <= i < px + piece.width && py <= j < py + piece.height {
                        piece.at(i - px, j - py)
                    } else {
                        c[k]
                    }
                },
        )
    } else {
        c
    }
}

/// Copies a region's (rotated) piece onto a sprite canvas so that the
/// region's zero point lands on the canvas pivot. Where the piece would not
/// fit, the canvas is left as it is and `false` is returned.
pub fn paste_region(canvas: &mut Raster, g: &SpriteGlobal, region: &Region, piece: &Raster) -> (r: bool)
    requires
        old(canvas).wf(),
        piece.wf(),
    ensures
        final(canvas).wf(),
        final(canvas).width == old(canvas).width,
        final(canvas).height == old(canvas).height,
        ({
            let (px, py) = paste_origin(*g, *region);
            &&& r <==> (0 <= px && 0 <= py && piece.width + px <= old(canvas).width && piece.height + py
                <= old(canvas).height)
            &&& !r ==> final(canvas).pixels@ == old(canvas).pixels@
            &&& final(canvas).pixels@ == pasted(
                old(canvas).pixels@,
                old(canvas).width as nat,
                old(canvas).height as nat,
                *piece,
                px,
                py,
            )
            &&& r ==> forall|i: int, j: int|
                0 <= i < old(canvas).width && 0 <= j < old(canvas).height ==> #[trigger] final(canvas).at(
                    i,
                    j,
                ) == if px <= i < px + piece.width && py <= j < py + piece.height {
                    piece.at(i - px, j - py)
                } else {
                    old(canvas).at(i, j)
                }
        }),
{
    if region.region_zero_x > g.global_zero_x || region.region_zero_y > g.global_zero_y {
        return false;
    }
    let paste_left = g.global_zero_x - region.region_zero_x;
    let paste_top = g.global_zero_y - region.region_zero_y;
    let ok = copy_from(canvas, piece, paste_left, paste_top);
    proof {
        if ok {
            let w = canvas.width as int;
            let p = pasted(
                old(canvas).pixels@,
                old(canvas).width as nat,
                old(canvas).height as nat,
                *piece,
                paste_left as int,
                paste_top as int,
            );
            assert forall|k: int| 0 <= k < canvas.pixels@.len() implies canvas.pixels@[k] == p[k] by {
                let i = k % w;
                let j = k / w;
                assert(w > 0) by (nonlinear_arith)
                    requires 0 <= k < canvas.pixels@.len(), canvas.pixels@.len() == w * canvas.height;
                assert(j < canvas.height) by (nonlinear_arith)
                    requires 0 <= k < w * canvas.height, j == k / w, w > 0;
                assert(0 <= i < w && 0 <= j);
                assert(j * w + i == k) by (nonlinear_arith)
                    requires i == k % w, j == k / w, w > 0;
                assert(canvas.at(i, j) == canvas.pixels@[k]);
            }
            assert(canvas.pixels@ =~= p);
        }
    }
    ok
}

/// The pixels of a `w` × `h` canvas `c` once the first `k` pieces are
/// pasted in order, each at its region's place; regions without a piece
/// are left out.
pub open spec fn composed(
    c: Seq<[u8; 4]>,
    w: nat,
    h: nat,
    g: SpriteGlobal,
    regions: Seq<Region>,
    pieces: Seq<Option<Raster>>,
    k: nat,
) -> Seq<[u8; 4]>
    decreases k,
{
    if k == 0 {
        c
    } else {
        let prev = composed(c, w, h, g, regions, pieces, (k - 1) as nat);
        match pieces[k - 1] {
            Some(p) => pasted(
                prev,
                w,
                h,
                p,
                paste_origin(g, regions[k - 1]).0,
                paste_origin(g, regions[k - 1]).1,
            ),
            None => prev,
        }
    }
}

/// A piece, where there is one, is well formed.
pub open spec fn piece_wf(o: Option<Raster>) -> bool {
    match o {
        Some(p) => p.wf(),
        None => true,
    }
}

/// There is a piece, and it fits on a `w` × `h` canvas at its region's place.
pub open spec fn piece_fits(o: Option<Raster>, g: SpriteGlobal, region: Region, w: nat, h: nat) -> bool {
    match o {
        Some(p) => {
            let (px, py) = paste_origin(g, region);
            0 <= px && 0 <= py && p.width + px <= w && p.height + py <= h
        },
        None => false,
    }
}

/// Pastes the pieces of a sprite's regions onto its canvas, in region
/// order; `pieces[k]` is the (rotated) piece of `regions[k]`, or `None`
/// where the region has none. Returns, for each region, whether its piece
/// was pasted.
pub fn compose_sprite(
    canvas: &mut Raster,
    g: &SpriteGlobal,
    regions: &Vec<Region>,
    pieces: &Vec<Option<Raster>>,
) -> (r: Vec<bool>)
    requires
        old(canvas).wf(),
        regions@.len() == pieces@.len(),
        forall|k: int| 0 <= k < pieces@.len() ==> piece_wf(#[trigger] pieces@[k]),
    ensures
        final(canvas).wf(),
        final(canvas).width == old(canvas).width,
        final(canvas).height == old(canvas).height,
        final(canvas).pixels@ == composed(
            old(canvas).pixels@,
            old(canvas).width as nat,
            old(canvas).height as nat,
            *g,
            regions@,
            pieces@,
            pieces@.len(),
        ),
        r@.len() == pieces@.len(),
        forall|k: int|
            0 <= k < pieces@.len() ==> (#[trigger] r@[k] <==> piece_fits(
                pieces@[k],
                *g,
                regions@[k],
                old(canvas).width as nat,
                old(canvas).height as nat,
            )),
{
    let n = pieces.len();
    let mut results: Vec<bool> = Vec::new();
    let mut k: usize = 0;
    while k < n
        invariant
            n == pieces@.len(),
            n == regions@.len(),
            k <= n,
            canvas.wf(),
            canvas.width == old(canvas).width,
            canvas.height == old(canvas).height,
            forall|q: int| 0 <= q < pieces@.len() ==> piece_wf(#[trigger] pieces@[q]),
            canvas.pixels@ == composed(
                old(canvas).pixels@,
                old(canvas).width as nat,
                old(canvas).height as nat,
                *g,
                regions@,
                pieces@,
                k as nat,
            ),
            results@.len() == k,
            forall|q: int|
                0 <= q < k ==> (#[trigger] results@[q] <==> piece_fits(
                    pieces@[q],
                    *g,
                    regions@[q],
                    old(canvas).width as nat,
                    old(canvas).height as nat,
                )),
        decreases n - k,
    {
        match &pieces[k] {
            Some(p) => {
                let ok = paste_region(canvas, g, &regions[k], p);
                results.push(ok);
            },
            None => {
                results.push(false);
            },
        }
        k = k + 1;
    }
    results
}

/// A transparent canvas of the size that `g` gives, or `None` where that
/// size does not fit in memory.
pub fn new_canvas(g: &SpriteGlobal) -> (r: Option<Raster>)
    ensures
        r is Some <==> (g.sprite_width <= u32::MAX && g.sprite_height <= u32::MAX
            && g.sprite_width * g.sprite_height <= usize::MAX),
        r matches Some(c) ==> c.wf() && c.width == g.sprite_width && c.height == g.sprite_height
            && forall|i: int| 0 <= i < c.pixels@.len() ==> #[trigger] c.pixels@[i] == [0u8, 0u8, 0u8, 0u8],
{
    if g.sprite_width > u32::MAX as u64 || g.sprite_height > u32::MAX as u64 {
        return None;
    }
    let w = g.sprite_width as u32;
    let h = g.sprite_height as u32;
    assert(w as u64 * h as u64 <= 0xFFFF_FFFF * 0xFFFF_FFFF) by (nonlinear_arith)
        requires w <= 0xFFFF_FFFF, h <= 0xFFFF_FFFF;
    if w as u64 * h as u64 > usize::MAX as u64 {
        return None;
    }
    Some(Raster::transparent(w, h))
}

/// Whether a region's piece must be rotated before it is pasted.
pub fn needs_rotation(rotation: u32) -> (r: bool)
    ensures
        r <==> (rotation != 0 && rotation != 360),
{
    rotation != 0 && rotation != 360
}

} // verus!
