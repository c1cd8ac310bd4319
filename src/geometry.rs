use vstd::prelude::*;

verus! {

/// A texture sheet referenced by a sprite file.
pub struct SheetItem {
    /// Width of the sheet in pixels, as the sprite file declares it.
    pub x: u32,
    /// Height of the sheet in pixels, as the sprite file declares it.
    pub y: u32,
    /// 2 where the sheets on disk are at half resolution, else 1.
    pub divider: u32,
}

impl SheetItem {
    pub fn new(x: u32, y: u32, divider: u32) -> (r: Self)
        ensures
            r.x == x && r.y == y && r.divider == divider,
    {
        SheetItem { x, y, divider }
    }
}

/// A 2-dimensional point.
#[derive(Clone, Copy, Debug, PartialEq, Eq, Structural)]
pub struct Point {
    pub x: i32,
    pub y: i32,
}

impl Point {
    pub fn new(x: i32, y: i32) -> (r: Self)
        ensures
            r.x == x && r.y == y,
    {
        Point { x, y }
    }
}

/// Where a coordinate of point 1 lies with respect to the same coordinate of point 0.
#[derive(Clone, Copy, Debug, PartialEq, Eq, Structural)]
pub enum Rotation {
    Same,
    Less,
    More,
}

impl Rotation {
    pub fn is_same(&self) -> (r: bool)
        ensures
            r <==> *self == Rotation::Same,
    {
        match self {
            Rotation::Same => true,
            _ => false,
        }
    }
}

/// Sentinel for `top` and `right`, which track maxima.
pub const SHAPE_MAX_SENTINEL: i32 = -32767;

/// Sentinel for `left` and `bottom`, which track minima.
pub const SHAPE_MIN_SENTINEL: i32 = 32767;


/// A polygonal piece of a sheet that contributes to a sprite.
pub struct Region {
    pub sheet_id: u32,
    pub num_points: u32,
    /// 0, 90, 180 or 270 once the region is laid out.
    pub rotation: u32,
    /// 0 or 1 once the region is laid out.
    pub mirroring: u32,
    /// Vertices in design space, where y grows upward.
    pub shape_points: Vec<Point>,
    /// Vertices in sheet texels.
    pub sheet_points: Vec<Point>,
    pub sprite_width: u32,
    pub sprite_height: u32,
    pub region_zero_x: u32,
    pub region_zero_y: u32,
    /// Largest design-space y.
    pub top: i32,
    /// Smallest design-space x.
    pub left: i32,
    /// Smallest design-space y.
    pub bottom: i32,
    /// Largest design-space x.
    pub right: i32,
}

impl Region {
    /// Whether the point lists agree with `num_points`.
    pub open spec fn wf(&self) -> bool {
        self.shape_points@.len() == self.num_points && self.sheet_points@.len() == self.num_points
    }

    /// A region on sheet `sheet_id` with the given vertices, not yet laid out:
    /// its extrema hold their sentinels and everything else is zero.
    pub fn new(sheet_id: u32, shape_points: Vec<Point>, sheet_points: Vec<Point>) -> (r: Self)
        requires
            shape_points@.len() == sheet_points@.len(),
            shape_points@.len() <= u32::MAX,
        ensures
            r.wf(),
            r.sheet_id == sheet_id,
            r.shape_points@ == shape_points@,
            r.sheet_points@ == sheet_points@,
            r.is_fresh(),
    {
        let num_points = shape_points.len() as u32;
        Region {
            sheet_id,
            num_points,
            rotation: 0,
            mirroring: 0,
            shape_points,
            sheet_points,
            sprite_width: 0,
            sprite_height: 0,
            region_zero_x: 0,
            region_zero_y: 0,
            top: SHAPE_MAX_SENTINEL,
            left: SHAPE_MIN_SENTINEL,
            bottom: SHAPE_MIN_SENTINEL,
            right: SHAPE_MAX_SENTINEL,
        }
    }

    /// A region as parsing leaves it: extrema at their sentinels, the rest zero.
    pub open spec fn is_fresh(&self) -> bool {
        &&& self.rotation == 0
        &&& self.mirroring == 0
        &&& self.sprite_width == 0
        &&& self.sprite_height == 0
        &&& self.region_zero_x == 0
        &&& self.region_zero_y == 0
        &&& self.top == SHAPE_MAX_SENTINEL
        &&& self.left == SHAPE_MIN_SENTINEL
        &&& self.bottom == SHAPE_MIN_SENTINEL
        &&& self.right == SHAPE_MAX_SENTINEL
    }
}

/// Twice the signed area of a polygon, summed over its first `k` edges:
/// `Σ (p[i+1].x − p[i].x) · (p[i+1].y + p[i].y)`, indices taken cyclically.
pub open spec fn shoelace_upto(p: Seq<Point>, k: nat) -> int
    decreases k,
{
    if k == 0 || p.len() == 0 {
        0
    } else {
        let i = (k - 1) as int;
        let j = (i + 1) % (p.len() as int);
        shoelace_upto(p, (k - 1) as nat) + (p[j].x - p[i].x) * (p[j].y + p[i].y)
    }
}

/// Twice the signed area of a polygon (its winding sense).
pub open spec fn shoelace(p: Seq<Point>) -> int {
    shoelace_upto(p, p.len())
}

/// The sign of a shoelace sum, zero counting as positive.
pub open spec fn orientation(sum: int) -> int {
    if sum < 0 {
        -1
    } else {
        1
    }
}

/// Where `a` lies with respect to `b`.
pub open spec fn compare(a: i32, b: i32) -> Rotation {
    if a > b {
        Rotation::More
    } else if a < b {
        Rotation::Less
    } else {
        Rotation::Same
    }
}

/// Where `a` lies with respect to `b`, with `More` and `Less` swapped (sheet
/// y grows downward).
pub open spec fn compare_inverted(a: i32, b: i32) -> Rotation {
    if a > b {
        Rotation::Less
    } else if a < b {
        Rotation::More
    } else {
        Rotation::Same
    }
}

/// The rotation that the relative placement of the first two vertices in
/// sheet space (`px`, `py`) and in shape space (`qx`, `qy`) selects.
pub open spec fn rotation_table(px: Rotation, py: Rotation, qx: Rotation, qy: Rotation) -> u32 {
    if px == qx && py == qy {
        0
    } else if px == Rotation::Same {
        if px == qy {
            if py == qx {
                90
            } else {
                270
            }
        } else {
            180
        }
    } else if py == Rotation::Same {
        if py == qx {
            if px == qy {
                270
            } else {
                90
            }
        } else {
            180
        }
    } else if px != qx && py != qy {
        180
    } else if px == py {
        if px != qx {
            270
        } else if py != qy {
            90
        } else {
            0
        }
    } else {
        if px != qx {
            90
        } else if py != qy {
            270
        } else {
            0
        }
    }
}

/// `-x`, where `i32::MIN` stays as it is.
pub open spec fn neg_x(x: i32) -> i32 {
    if x == i32::MIN {
        x
    } else {
        (-x) as i32
    }
}

/// The points with every x negated.
pub open spec fn mirrored(p: Seq<Point>) -> Seq<Point> {
    p.map_values(|q: Point| Point { x: neg_x(q.x), y: q.y })
}

/// 1 where the sheet and shape polygons wind in opposite senses, else 0.
pub open spec fn mirroring_of(sheet: Seq<Point>, shape: Seq<Point>) -> u32 {
    if orientation(shoelace(sheet)) == orientation(shoelace(shape)) {
        0
    } else {
        1
    }
}

/// The shape points once mirroring is applied.
pub open spec fn oriented_shape(sheet: Seq<Point>, shape: Seq<Point>) -> Seq<Point> {
    if mirroring_of(sheet, shape) == 1 {
        mirrored(shape)
    } else {
        shape
    }
}

/// The rotation, in degrees, that takes the sheet polygon onto the shape
/// polygon (once mirrored where needed).
pub open spec fn rotation_of(sheet: Seq<Point>, shape: Seq<Point>) -> u32
    recommends
        sheet.len() >= 2,
        shape.len() >= 2,
{
    let q = oriented_shape(sheet, shape);
    let base = rotation_table(
        compare(sheet[1].x, sheet[0].x),
        compare_inverted(sheet[1].y, sheet[0].y),
        compare(q[1].x, q[0].x),
        compare(q[1].y, q[0].y),
    );
    if orientation(shoelace(sheet)) < 0 && (base == 90 || base == 270) {
        ((base + 180) % 360) as u32
    } else {
        base
    }
}

proof fn lemma_term_bound(a: i32, b: i32, c: i32, d: i32)
    ensures
        -0x1_0000_0000_0000_0000 <= (a - b) * (c + d) <= 0x1_0000_0000_0000_0000,
{
    let u = a - b;
    let v = c + d;
    assert(-0x1_0000_0000 <= u <= 0x1_0000_0000);
    assert(-0x1_0000_0000 <= v <= 0x1_0000_0000);
    assert(-0x1_0000_0000_0000_0000 <= u * v <= 0x1_0000_0000_0000_0000) by (nonlinear_arith)
        requires
            -0x1_0000_0000 <= u <= 0x1_0000_0000,
            -0x1_0000_0000 <= v <= 0x1_0000_0000,
    ;
}

/// Twice the signed area of polygon `p`.
pub fn polygon_area2(p: &Vec<Point>) -> (r: i128)
    requires
        p@.len() <= u32::MAX,
    ensures
        r == shoelace(p@),
{
    let n = p.len();
    let mut sum: i128 = 0;
    let mut z: usize = 0;
    while z < n
        invariant
            n == p@.len(),
            n <= u32::MAX,
            z <= n,
            sum == shoelace_upto(p@, z as nat),
            -(z as int) * 0x1_0000_0000_0000_0000 <= sum <= (z as int) * 0x1_0000_0000_0000_0000,
        decreases n - z,
    {
        let nz = (z + 1) % n;
        let a = p[nz];
        let b = p[z];
        proof {
            lemma_term_bound(a.x, b.x, a.y, b.y);
        }
        let term = (a.x as i128 - b.x as i128) * (a.y as i128 + b.y as i128);
        sum = sum + term;
        z = z + 1;
    }
    sum
}

/// Infers the orientation of a region: sets `mirroring` from the winding of
/// its two polygons (negating every shape x where they differ) and
/// `rotation` from where vertex 1 lies with respect to vertex 0 in each.
pub fn region_rotation(region: &mut Region)
    requires
        old(region).wf(),
        old(region).num_points >= 2,
    ensures
        final(region).mirroring == mirroring_of(
            old(region).sheet_points@,
            old(region).shape_points@,
        ),
        final(region).rotation == rotation_of(old(region).sheet_points@, old(region).shape_points@),
        final(region).shape_points@ == oriented_shape(
            old(region).sheet_points@,
            old(region).shape_points@,
        ),
        final(region).sheet_points@ == old(region).sheet_points@,
        final(region).num_points == old(region).num_points,
        final(region).sheet_id == old(region).sheet_id,
        final(region).sprite_width == old(region).sprite_width,
        final(region).sprite_height == old(region).sprite_height,
        final(region).region_zero_x == old(region).region_zero_x,
        final(region).region_zero_y == old(region).region_zero_y,
        final(region).top == old(region).top,
        final(region).left == old(region).left,
        final(region).bottom == old(region).bottom,
        final(region).right == old(region).right,
{
    let sum_sheet = polygon_area2(&region.sheet_points);
    let sum_shape = polygon_area2(&region.shape_points);
    let sheet_orientation: i8 = if sum_sheet < 0 { -1 } else { 1 };
    let shape_orientation: i8 = if sum_shape < 0 { -1 } else { 1 };
    region.mirroring = if shape_orientation == sheet_orientation { 0 } else { 1 };
    if region.mirroring == 1 {
        mirror_points(&mut region.shape_points);
    }
    let px = compare_exec(region.sheet_points[1].x, region.sheet_points[0].x);
    // Sheet y grows downward: more and less swap here.
    let py = match compare_exec(region.sheet_points[1].y, region.sheet_points[0].y) {
        Rotation::More => Rotation::Less,
        Rotation::Less => Rotation::More,
        Rotation::Same => Rotation::Same,
    };
    let qx = compare_exec(region.shape_points[1].x, region.shape_points[0].x);
    let qy = compare_exec(region.shape_points[1].y, region.shape_points[0].y);

    let mut rotation: u32 = if px == qx && py == qy {
        0
    } else if px.is_same() {
        if px == qy {
            if py == qx {
                90
            } else {
                270
            }
        } else {
            180
        }
    } else if py.is_same() {
        if py == qx {
            if px == qy {
                270
            } else {
                90
            }
        } else {
            180
        }
    } else if px != qx && py != qy {
        180
    } else if px == py {
        if px != qx {
            270
        } else if py != qy {
            90
        } else {
            0
        }
    } else {
        if px != qx {
            90
        } else if py != qy {
            270
        } else {
            0
        }
    };
    if sheet_orientation == -1 && (rotation == 90 || rotation == 270) {
        rotation = (rotation + 180) % 360;
    }
    region.rotation = rotation;
}

/// Negates the x of every point.
fn mirror_points(points: &mut Vec<Point>)
    ensures
        final(points)@ == mirrored(old(points)@),
{
    let n = points.len();
    let mut x: usize = 0;
    while x < n
        invariant
            n == points@.len(),
            n == old(points)@.len(),
            x <= n,
            forall|k: int| 0 <= k < x ==> #[trigger] points@[k] == mirrored(old(points)@)[k],
            forall|k: int| x <= k < n ==> #[trigger] points@[k] == old(points)@[k],
        decreases n - x,
    {
        let p = points[x];
        let nx = if p.x == i32::MIN { p.x } else { -p.x };
        points.set(x, Point { x: nx, y: p.y });
        x = x + 1;
    }
    assert(points@ =~= mirrored(old(points)@));
}

fn compare_exec(a: i32, b: i32) -> (r: Rotation)
    ensures
        r == compare(a, b),
{
    if a > b {
        Rotation::More
    } else if a < b {
        Rotation::Less
    } else {
        Rotation::Same
    }
}

/// A sprite: an id and its regions, in order.
pub struct SpriteItem {
    pub id: u32,
    pub total_regions: u32,
    pub regions: Vec<Region>,
}

impl SpriteItem {
    pub fn new(id: u32, total_regions: u32, regions: Vec<Region>) -> (r: Self)
        ensures
            r.id == id && r.total_regions == total_regions && r.regions@ == regions@,
    {
        SpriteItem { id, total_regions, regions }
    }
}

/// The canvas shared by every sprite of one file, and its pivot.
pub struct SpriteGlobal {
    pub sprite_width: u64,
    pub sprite_height: u64,
    pub global_zero_x: u32,
    pub global_zero_y: u32,
}

impl SpriteGlobal {
    pub fn new(sprite_width: u64, sprite_height: u64, global_zero_x: u32, global_zero_y: u32) -> (r:
        Self)
        ensures
            r.sprite_width == sprite_width && r.sprite_height == sprite_height && r.global_zero_x
                == global_zero_x && r.global_zero_y == global_zero_y,
    {
        SpriteGlobal { sprite_width, sprite_height, global_zero_x, global_zero_y }
    }
}

pub open spec fn max_int(a: int, b: int) -> int {
    if b > a {
        b
    } else {
        a
    }
}

pub open spec fn min_int(a: int, b: int) -> int {
    if b < a {
        b
    } else {
        a
    }
}

/// The largest x among the first `k` points, or `init` where it is larger.
pub open spec fn max_x_upto(p: Seq<Point>, k: nat, init: int) -> int
    decreases k,
{
    if k == 0 {
        init
    } else {
        max_int(max_x_upto(p, (k - 1) as nat, init), p[k - 1].x as int)
    }
}

/// The smallest x among the first `k` points, or `init` where it is smaller.
pub open spec fn min_x_upto(p: Seq<Point>, k: nat, init: int) -> int
    decreases k,
{
    if k == 0 {
        init
    } else {
        min_int(min_x_upto(p, (k - 1) as nat, init), p[k - 1].x as int)
    }
}

/// The largest y among the first `k` points, or `init` where it is larger.
pub open spec fn max_y_upto(p: Seq<Point>, k: nat, init: int) -> int
    decreases k,
{
    if k == 0 {
        init
    } else {
        max_int(max_y_upto(p, (k - 1) as nat, init), p[k - 1].y as int)
    }
}

/// The smallest y among the first `k` points, or `init` where it is smaller.
pub open spec fn min_y_upto(p: Seq<Point>, k: nat, init: int) -> int
    decreases k,
{
    if k == 0 {
        init
    } else {
        min_int(min_y_upto(p, (k - 1) as nat, init), p[k - 1].y as int)
    }
}

/// `|a · ext / span|` rounded half away from zero, as a `u32`, with the
/// results that a floating-point division gives where `span` is zero
/// (`0` for `0 / 0`, saturation otherwise) and saturation above `u32::MAX`.
pub open spec fn zero_offset(a: int, ext: int, span: int) -> u32 {
    let n = if a * ext < 0 { -(a * ext) } else { a * ext };
    let d = if span < 0 { -span } else { span };
    if d == 0 {
        if n == 0 {
            0
        } else {
            u32::MAX
        }
    } else {
        let q = (2 * n + d) / (2 * d);
        if q > u32::MAX {
            u32::MAX
        } else {
            q as u32
        }
    }
}

/// The x of the first point, or 0 where there is none.
pub open spec fn first_x(p: Seq<Point>) -> int {
    if p.len() > 0 {
        p[0].x as int
    } else {
        0
    }
}

/// The y of the first point, or 0 where there is none.
pub open spec fn first_y(p: Seq<Point>) -> int {
    if p.len() > 0 {
        p[0].y as int
    } else {
        0
    }
}

/// What laying out does to a region: design-space extrema are folded over
/// its shape points from their sentinels, its orientation is inferred, and
/// its extent and pivot follow from the bounding box of its sheet points. A region of
/// fewer than two points gets no orientation, extent or pivot.
pub open spec fn laid_out(before: Region, after: Region) -> bool {
    let n = before.num_points as nat;
    let shape = before.shape_points@;
    let sheet = before.sheet_points@;
    let min_x = min_x_upto(sheet, n, first_x(sheet));
    let max_x = max_x_upto(sheet, n, first_x(sheet));
    let min_y = min_y_upto(sheet, n, first_y(sheet));
    let max_y = max_y_upto(sheet, n, first_y(sheet));
    &&& after.wf()
    &&& after.sheet_id == before.sheet_id
    &&& after.num_points == before.num_points
    &&& after.sheet_points@ == sheet
    &&& after.top == max_y_upto(shape, n, before.top as int)
    &&& after.left == min_x_upto(shape, n, before.left as int)
    &&& after.bottom == min_y_upto(shape, n, before.bottom as int)
    &&& after.right == max_x_upto(shape, n, before.right as int)
    &&& if n >= 2 {
        &&& after.mirroring == mirroring_of(sheet, shape)
        &&& after.rotation == rotation_of(sheet, shape)
        &&& after.shape_points@ == oriented_shape(sheet, shape)
        &&& if after.rotation == 90 || after.rotation == 270 {
            after.sprite_width == max_y - min_y && after.sprite_height == max_x - min_x
        } else {
            after.sprite_width == max_x - min_x && after.sprite_height == max_y - min_y
        }
        &&& after.region_zero_x == zero_offset(
            after.left as int,
            after.sprite_width as int,
            after.right - after.left,
        )
        &&& after.region_zero_y == zero_offset(
            after.bottom as int,
            after.sprite_height as int,
            after.top - after.bottom,
        )
    } else {
        &&& after.mirroring == 0
        &&& after.rotation == 0
        &&& after.shape_points@ == shape
        &&& after.sprite_width == 0
        &&& after.sprite_height == 0
        &&& after.region_zero_x == 0
        &&& after.region_zero_y == 0
    }
}

proof fn lemma_bounds_upto(p: Seq<Point>, k: nat, lo: int, hi: int)
    requires
        k <= p.len(),
        k >= 1,
    ensures
        max_x_upto(p, k, hi) >= min_x_upto(p, k, lo),
        max_y_upto(p, k, hi) >= min_y_upto(p, k, lo),
        min_x_upto(p, k, lo) <= i32::MAX,
        min_y_upto(p, k, lo) <= i32::MAX,
        max_x_upto(p, k, hi) >= i32::MIN,
        max_y_upto(p, k, hi) >= i32::MIN,
        max_x_upto(p, k, hi) >= p[0].x,
        max_y_upto(p, k, hi) >= p[0].y,
        min_x_upto(p, k, lo) <= p[0].x,
        min_y_upto(p, k, lo) <= p[0].y,
    decreases k,
{
    if k > 1 {
        lemma_bounds_upto(p, (k - 1) as nat, lo, hi);
    }
}

/// Lays out one region (see `laid_out`).
pub fn layout_region(region: &mut Region)
    requires
        old(region).wf(),
    ensures
        laid_out(*old(region), *final(region)),
{
    let n = region.num_points as usize;
    let mut top = region.top;
    let mut left = region.left;
    let mut bottom = region.bottom;
    let mut right = region.right;
    let (x0, y0): (i64, i64) = if n > 0 {
        (region.sheet_points[0].x as i64, region.sheet_points[0].y as i64)
    } else {
        (0, 0)
    };
    let mut region_min_x: i64 = x0;
    let mut region_max_x: i64 = x0;
    let mut region_min_y: i64 = y0;
    let mut region_max_y: i64 = y0;
    let mut z: usize = 0;
    while z < n
        invariant
            n == region.num_points,
            region.wf(),
            z <= n,
            top == max_y_upto(region.shape_points@, z as nat, region.top as int),
            left == min_x_upto(region.shape_points@, z as nat, region.left as int),
            bottom == min_y_upto(region.shape_points@, z as nat, region.bottom as int),
            right == max_x_upto(region.shape_points@, z as nat, region.right as int),
            x0 == first_x(region.sheet_points@),
            y0 == first_y(region.sheet_points@),
            region_min_x == min_x_upto(region.sheet_points@, z as nat, x0 as int),
            region_max_x == max_x_upto(region.sheet_points@, z as nat, x0 as int),
            region_min_y == min_y_upto(region.sheet_points@, z as nat, y0 as int),
            region_max_y == max_y_upto(region.sheet_points@, z as nat, y0 as int),
            i32::MIN <= region_min_x <= i32::MAX,
            i32::MIN <= region_max_x <= i32::MAX,
            i32::MIN <= region_min_y <= i32::MAX,
            i32::MIN <= region_max_y <= i32::MAX,
        decreases n - z,
    {
        let shape = region.shape_points[z];
        let sheet = region.sheet_points[z];
        top = if shape.y > top { shape.y } else { top };
        left = if shape.x < left { shape.x } else { left };
        bottom = if shape.y < bottom { shape.y } else { bottom };
        right = if shape.x > right { shape.x } else { right };
        let sx = sheet.x as i64;
        let sy = sheet.y as i64;
        region_min_x = if sx < region_min_x { sx } else { region_min_x };
        region_max_x = if sx > region_max_x { sx } else { region_max_x };
        region_min_y = if sy < region_min_y { sy } else { region_min_y };
        region_max_y = if sy > region_max_y { sy } else { region_max_y };
        z = z + 1;
    }
    region.top = top;
    region.left = left;
    region.bottom = bottom;
    region.right = right;
    if n < 2 {
        region.mirroring = 0;
        region.rotation = 0;
        region.sprite_width = 0;
        region.sprite_height = 0;
        region.region_zero_x = 0;
        region.region_zero_y = 0;
        return ;
    }
    proof {
        lemma_bounds_upto(old(region).sheet_points@, n as nat, x0 as int, x0 as int);
        lemma_bounds_upto(old(region).sheet_points@, n as nat, y0 as int, y0 as int);
        lemma_bounds_upto(old(region).shape_points@, n as nat, old(region).left as int, old(region).right as int);
        lemma_bounds_upto(old(region).shape_points@, n as nat, old(region).bottom as int, old(region).top as int);
    }
    region_rotation(region);
    let span_x = region_max_x - region_min_x;
    let span_y = region_max_y - region_min_y;
    if region.rotation == 90 || region.rotation == 270 {
        region.sprite_width = span_y as u32;
        region.sprite_height = span_x as u32;
    } else {
        region.sprite_width = span_x as u32;
        region.sprite_height = span_y as u32;
    }
    region.region_zero_x = zero_offset_exec(
        region.left,
        region.sprite_width,
        region.right as i64 - region.left as i64,
    );
    region.region_zero_y = zero_offset_exec(
        region.bottom,
        region.sprite_height,
        region.top as i64 - region.bottom as i64,
    );
}

/// `zero_offset(a, ext, span)`.
fn zero_offset_exec(a: i32, ext: u32, span: i64) -> (r: u32)
    requires
        -0x1_0000_0000 <= span <= 0x1_0000_0000,
    ensures
        r == zero_offset(a as int, ext as int, span as int),
{
    assert(-0x8000_0000_0000_0000 < a * ext < 0x8000_0000_0000_0000) by (nonlinear_arith)
        requires -0x8000_0000 <= a < 0x8000_0000, 0 <= ext < 0x1_0000_0000;
    let prod = a as i128 * ext as i128;
    let n: i128 = if prod < 0 { -prod } else { prod };
    let d: i128 = if span < 0 { -(span as i128) } else { span as i128 };
    if d == 0 {
        if n == 0 {
            0
        } else {
            u32::MAX
        }
    } else {
        let q = (2 * n + d) / (2 * d);
        if q > u32::MAX as i128 {
            u32::MAX
        } else {
            q as u32
        }
    }
}

/// The margins a laid-out region needs around the pivot, folded into `m`:
/// (left, above, right, below).
pub open spec fn margins_with(m: (int, int, int, int), r: Region) -> (int, int, int, int) {
    (
        max_int(m.0, r.region_zero_x as int),
        max_int(m.1, r.region_zero_y as int),
        max_int(m.2, r.sprite_width - r.region_zero_x),
        max_int(m.3, r.sprite_height - r.region_zero_y),
    )
}

/// Margins folded over the first `k` regions, starting from `m`.
pub open spec fn fold_regions(rs: Seq<Region>, k: nat, m: (int, int, int, int)) -> (
    int,
    int,
    int,
    int,
)
    decreases k,
{
    if k == 0 {
        m
    } else {
        margins_with(fold_regions(rs, (k - 1) as nat, m), rs[k - 1])
    }
}

/// Margins folded over every region of the first `k` sprites, starting from zeros.
pub open spec fn fold_sprites(ss: Seq<SpriteItem>, k: nat) -> (int, int, int, int)
    decreases k,
{
    if k == 0 {
        (0, 0, 0, 0)
    } else {
        fold_regions(ss[k - 1].regions@, ss[k - 1].regions@.len(), fold_sprites(ss, (k - 1) as nat))
    }
}

/// The largest left, upper, right and lower margins over every region of every sprite.
pub open spec fn sprite_margins(ss: Seq<SpriteItem>) -> (int, int, int, int) {
    fold_sprites(ss, ss.len())
}

/// Running margins while sprites are laid out.
struct Margins {
    left: u32,
    above: u32,
    right: i64,
    below: i64,
}

impl Margins {
    spec fn view(&self) -> (int, int, int, int) {
        (self.left as int, self.above as int, self.right as int, self.below as int)
    }

    spec fn in_range(&self) -> bool {
        0 <= self.right <= 0x1_0000_0000 && 0 <= self.below <= 0x1_0000_0000
    }
}

proof fn lemma_fold_regions_prefix(a: Seq<Region>, b: Seq<Region>, k: nat, m: (int, int, int, int))
    requires
        k <= a.len(),
        k <= b.len(),
        forall|i: int| 0 <= i < k ==> a[i] == b[i],
    ensures
        fold_regions(a, k, m) == fold_regions(b, k, m),
    decreases k,
{
    if k > 0 {
        lemma_fold_regions_prefix(a, b, (k - 1) as nat, m);
    }
}

proof fn lemma_fold_sprites_prefix(a: Seq<SpriteItem>, b: Seq<SpriteItem>, k: nat)
    requires
        k <= a.len(),
        k <= b.len(),
        forall|i: int| 0 <= i < k ==> a[i].regions@ == b[i].regions@,
    ensures
        fold_sprites(a, k) == fold_sprites(b, k),
    decreases k,
{
    if k > 0 {
        lemma_fold_sprites_prefix(a, b, (k - 1) as nat);
    }
}

/// Lays out every region of `regions`, folding their margins into `m`.
fn layout_regions(regions: &mut Vec<Region>, m: &mut Margins)
    requires
        forall|j: int| 0 <= j < old(regions)@.len() ==> (#[trigger] old(regions)@[j]).wf(),
        old(m).in_range(),
    ensures
        final(regions)@.len() == old(regions)@.len(),
        forall|j: int|
            0 <= j < old(regions)@.len() ==> laid_out(
                #[trigger] old(regions)@[j],
                final(regions)@[j],
            ),
        final(m)@ == fold_regions(final(regions)@, final(regions)@.len(), old(m)@),
        final(m).in_range(),
{
    let n = regions.len();
    let mut j: usize = 0;
    while j < n
        invariant
            n == regions@.len(),
            n == old(regions)@.len(),
            j <= n,
            m.in_range(),
            forall|k: int| 0 <= k < j ==> laid_out(#[trigger] old(regions)@[k], regions@[k]),
            forall|k: int| j <= k < n ==> #[trigger] regions@[k] == old(regions)@[k],
            forall|k: int| 0 <= k < n ==> (#[trigger] old(regions)@[k]).wf(),
            m@ == fold_regions(regions@, j as nat, old(m)@),
        decreases n - j,
    {
        let ghost start = regions@;
        let mut r = Region::new(0, Vec::new(), Vec::new());
        regions.set_and_swap(j, &mut r);
        layout_region(&mut r);
        let ghost prev_m = m@;
        if r.region_zero_x > m.left {
            m.left = r.region_zero_x;
        }
        if r.region_zero_y > m.above {
            m.above = r.region_zero_y;
        }
        let right = r.sprite_width as i64 - r.region_zero_x as i64;
        if right > m.right {
            m.right = right;
        }
        let below = r.sprite_height as i64 - r.region_zero_y as i64;
        if below > m.below {
            m.below = below;
        }
        let ghost before = regions@;
        let ghost laid = r;
        regions.set_and_swap(j, &mut r);
        proof {
            lemma_fold_regions_prefix(start, regions@, j as nat, old(m)@);
            assert(regions@[j as int] == laid);
            assert(m@ == margins_with(prev_m, laid));
            assert(fold_regions(regions@, (j + 1) as nat, old(m)@) == margins_with(
                fold_regions(regions@, j as nat, old(m)@),
                regions@[j as int],
            ));
        }
        j = j + 1;
    }
}

/// Lays out every region of every sprite and sizes the canvas that all
/// sprites share: wide enough for the largest left and right margins around
/// the pivot, high enough for the largest upper and lower ones, plus a
/// one-pixel border on each side.
pub fn layout_sprites(sprites: &mut Vec<SpriteItem>) -> (g: SpriteGlobal)
    requires
        forall|i: int, j: int|
            0 <= i < old(sprites)@.len() && 0 <= j < old(sprites)@[i].regions@.len()
                ==> (#[trigger] old(sprites)@[i].regions@[j]).wf(),
    ensures
        final(sprites)@.len() == old(sprites)@.len(),
        forall|i: int|
            0 <= i < old(sprites)@.len() ==> {
                &&& (#[trigger] final(sprites)@[i]).id == old(sprites)@[i].id
                &&& final(sprites)@[i].total_regions == old(sprites)@[i].total_regions
                &&& final(sprites)@[i].regions@.len() == old(sprites)@[i].regions@.len()
            },
        forall|i: int, j: int|
            0 <= i < old(sprites)@.len() && 0 <= j < old(sprites)@[i].regions@.len() ==> laid_out(
                #[trigger] old(sprites)@[i].regions@[j],
                final(sprites)@[i].regions@[j],
            ),
        g.global_zero_x == sprite_margins(final(sprites)@).0,
        g.global_zero_y == sprite_margins(final(sprites)@).1,
        g.sprite_width == sprite_margins(final(sprites)@).0 + sprite_margins(final(sprites)@).2 + 2,
        g.sprite_height == sprite_margins(final(sprites)@).1 + sprite_margins(final(sprites)@).3 + 2,
{
    let mut m = Margins { left: 0, above: 0, right: 0, below: 0 };
    let n = sprites.len();
    let mut i: usize = 0;
    while i < n
        invariant
            n == sprites@.len(),
            n == old(sprites)@.len(),
            i <= n,
            m.in_range(),
            forall|k: int|
                0 <= k < i ==> {
                    &&& (#[trigger] sprites@[k]).id == old(sprites)@[k].id
                    &&& sprites@[k].total_regions == old(sprites)@[k].total_regions
                    &&& sprites@[k].regions@.len() == old(sprites)@[k].regions@.len()
                },
            forall|k: int, j: int|
                0 <= k < i && 0 <= j < old(sprites)@[k].regions@.len() ==> laid_out(
                    #[trigger] old(sprites)@[k].regions@[j],
                    sprites@[k].regions@[j],
                ),
            forall|k: int| i <= k < n ==> #[trigger] sprites@[k] == old(sprites)@[k],
            forall|k: int, j: int|
                0 <= k < n && 0 <= j < old(sprites)@[k].regions@.len()
                    ==> (#[trigger] old(sprites)@[k].regions@[j]).wf(),
            m@ == fold_sprites(sprites@, i as nat),
        decreases n - i,
    {
        let ghost start = sprites@;
        let mut s = SpriteItem { id: 0, total_regions: 0, regions: Vec::new() };
        sprites.set_and_swap(i, &mut s);
        let ghost before_m = m@;
        let ghost orig = s;
        assert(forall|j: int| 0 <= j < s.regions@.len() ==> (#[trigger] s.regions@[j]).wf()) by {
            assert forall|j: int| 0 <= j < s.regions@.len() implies (#[trigger] s.regions@[j]).wf() by {
                assert(old(sprites)@[i as int].regions@[j].wf());
            }
        }
        layout_regions(&mut s.regions, &mut m);
        let ghost before = sprites@;
        let ghost done = s;
        sprites.set_and_swap(i, &mut s);
        proof {
            lemma_fold_sprites_prefix(start, sprites@, i as nat);
            assert(sprites@[i as int] == done);
            assert(fold_sprites(sprites@, (i + 1) as nat) == fold_regions(
                done.regions@,
                done.regions@.len(),
                fold_sprites(sprites@, i as nat),
            ));
            assert(forall|j: int| 0 <= j < orig.regions@.len() ==> laid_out(
                #[trigger] orig.regions@[j], sprites@[i as int].regions@[j]));
        }
        i = i + 1;
    }
    let sprite_width = m.left as u64 + m.right as u64 + 2;
    let sprite_height = m.above as u64 + m.below as u64 + 2;
    SpriteGlobal::new(sprite_width, sprite_height, m.left, m.above)
}

/// A laid-out region is rotated by 0, 90, 180 or 270 degrees and mirrored
/// or not (0 or 1).
pub proof fn lemma_orientation_range(before: Region, after: Region)
    requires
        laid_out(before, after),
    ensures
        after.rotation == 0 || after.rotation == 90 || after.rotation == 180 || after.rotation == 270,
        after.mirroring == 0 || after.mirroring == 1,
{
}

/// Whether margins `a` are at least margins `b` on every side.
pub open spec fn covers(a: (int, int, int, int), b: (int, int, int, int)) -> bool {
    a.0 >= b.0 && a.1 >= b.1 && a.2 >= b.2 && a.3 >= b.3
}

proof fn lemma_fold_regions_grows(rs: Seq<Region>, k: nat, m: (int, int, int, int))
    ensures
        covers(fold_regions(rs, k, m), m),
        forall|j: int| 0 <= j < k ==> covers(fold_regions(rs, k, m), margins_with(m, #[trigger] rs[j])),
    decreases k,
{
    if k > 0 {
        lemma_fold_regions_grows(rs, (k - 1) as nat, m);
        let prev = fold_regions(rs, (k - 1) as nat, m);
        assert forall|j: int| 0 <= j < k implies covers(
            fold_regions(rs, k, m),
            margins_with(m, #[trigger] rs[j]),
        ) by {
            if j < k - 1 {
                assert(covers(prev, margins_with(m, rs[j])));
            }
        }
    }
}

proof fn lemma_fold_sprites_grows(ss: Seq<SpriteItem>, k1: nat, k2: nat)
    requires
        k1 <= k2,
    ensures
        covers(fold_sprites(ss, k2), fold_sprites(ss, k1)),
    decreases k2,
{
    if k1 < k2 {
        lemma_fold_sprites_grows(ss, k1, (k2 - 1) as nat);
        let prev = fold_sprites(ss, (k2 - 1) as nat);
        lemma_fold_regions_grows(ss[k2 - 1].regions@, ss[k2 - 1].regions@.len(), prev);
    }
}

/// The shared canvas encloses every region of every sprite: no region's
/// zero point lies further from the pivot, nor does any region reach
/// further past it, than the canvas margins.
pub proof fn lemma_regions_within_margins(ss: Seq<SpriteItem>, i: int, j: int)
    requires
        0 <= i < ss.len(),
        0 <= j < ss[i].regions@.len(),
    ensures
        ({
            let m = sprite_margins(ss);
            let r = ss[i].regions@[j];
            &&& r.region_zero_x <= m.0
            &&& r.region_zero_y <= m.1
            &&& r.sprite_width - r.region_zero_x <= m.2
            &&& r.sprite_height - r.region_zero_y <= m.3
        }),
{
    let before = fold_sprites(ss, i as nat);
    lemma_fold_regions_grows(ss[i].regions@, ss[i].regions@.len(), before);
    assert(covers(fold_sprites(ss, (i + 1) as nat), margins_with(before, ss[i].regions@[j])));
    lemma_fold_sprites_grows(ss, (i + 1) as nat, ss.len());
}

} // verus!
