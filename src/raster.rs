use vstd::prelude::*;

verus! {

/// An RGBA image: `width` × `height` pixels in row-major order.
pub struct Raster {
    pub width: u32,
    pub height: u32,
    pub pixels: Vec<[u8; 4]>,
}

impl Raster {
    /// Width, height and the pixels' channels.
    pub open spec fn view_of(&self) -> (nat, nat, Seq<Seq<u8>>) {
        (self.width as nat, self.height as nat, self.pixels@.map_values(|p: [u8; 4]| p@))
    }

    /// The pixel buffer holds exactly `width` × `height` pixels.
    pub open spec fn wf(&self) -> bool {
        self.pixels@.len() == self.width as nat * self.height as nat
    }

    /// The pixel at column `x`, row `y`.
    pub open spec fn at(&self, x: int, y: int) -> [u8; 4] {
        self.pixels@[y * self.width + x]
    }

    /// A fully transparent `width` × `height` image.
    pub fn transparent(width: u32, height: u32) -> (r: Raster)
        requires
            width as nat * height as nat <= usize::MAX,
        ensures
            r.wf(),
            r.width == width && r.height == height,
            forall|i: int| 0 <= i < r.pixels@.len() ==> #[trigger] r.pixels@[i] == [0u8, 0u8, 0u8, 0u8],
    {
        let n = width as usize * height as usize;
        let mut pixels: Vec<[u8; 4]> = Vec::new();
        let mut i: usize = 0;
        while i < n
            invariant
                i <= n,
                pixels@.len() == i,
                forall|k: int| 0 <= k < i ==> #[trigger] pixels@[k] == [0u8, 0u8, 0u8, 0u8],
            decreases n - i,
        {
            pixels.push([0u8, 0u8, 0u8, 0u8]);
            i = i + 1;
        }
        Raster { width, height, pixels }
    }
}

/// Row-major positions inside a `w`-wide grid are distinct and in range.
pub proof fn lemma_grid_index(w: int, h: int, x: int, y: int)
    requires
        0 <= x < w,
        0 <= y < h,
    ensures
        0 <= y * w + x < w * h,
        (y * w + x) / w == y,
        (y * w + x) % w == x,
{
    assert(0 <= y * w) by (nonlinear_arith)
        requires 0 <= y, 0 <= w;
    assert(y * w + x < w * h) by (nonlinear_arith)
        requires 0 <= x < w, 0 <= y < h;
    vstd::arithmetic::div_mod::lemma_fundamental_div_mod_converse(y * w + x, w, y, x);
}

/// Where `crop` of a `big_w` × `big_h` grid at (`x`, `y`) of size `w` × `h`
/// really lands: the corner clamped into the grid, the size clamped to what
/// remains of it.
pub open spec fn crop_dims(big_w: u32, big_h: u32, x: u32, y: u32, w: u32, h: u32) -> (
    u32,
    u32,
    u32,
    u32,
) {
    let cx = if x < big_w { x } else { big_w };
    let cy = if y < big_h { y } else { big_h };
    let cw = if w < big_w - cx { w } else { (big_w - cx) as u32 };
    let ch = if h < big_h - cy { h } else { (big_h - cy) as u32 };
    (cx, cy, cw, ch)
}

/// Cuts the rectangle at (`x`, `y`) of size `w` × `h` out of a row-major
/// `big_w` × `big_h` grid, clamped to the grid as `crop_dims` says.
pub fn crop_cells<T: Copy>(cells: &Vec<T>, big_w: u32, big_h: u32, x: u32, y: u32, w: u32, h: u32) -> (r:
    Vec<T>)
    requires
        cells@.len() == big_w as nat * big_h as nat,
    ensures
        ({
            let (cx, cy, cw, ch) = crop_dims(big_w, big_h, x, y, w, h);
            &&& r@.len() == cw as nat * ch as nat
            &&& forall|i: int, j: int|
                0 <= i < cw && 0 <= j < ch ==> #[trigger] r@[j * cw + i] == cells@[(cy + j) * big_w
                    + cx + i]
        }),
{
    let cx = if x < big_w { x } else { big_w };
    let cy = if y < big_h { y } else { big_h };
    let cw = if w < big_w - cx { w } else { big_w - cx };
    let ch = if h < big_h - cy { h } else { big_h - cy };
    let n = cells.len();
    let mut out: Vec<T> = Vec::new();
    let mut j: u32 = 0;
    while j < ch
        invariant
            n == cells@.len(),
            (cx, cy, cw, ch) == crop_dims(big_w, big_h, x, y, w, h),
            cells@.len() == big_w as nat * big_h as nat,
            j <= ch,
            out@.len() == j as nat * cw as nat,
            forall|ii: int, jj: int|
                0 <= ii < cw && 0 <= jj < j ==> #[trigger] out@[jj * cw + ii] == cells@[(cy + jj)
                    * big_w + cx + ii],
        decreases ch - j,
    {
        let mut i: u32 = 0;
        while i < cw
            invariant
                n == cells@.len(),
                (cx, cy, cw, ch) == crop_dims(big_w, big_h, x, y, w, h),
                cells@.len() == big_w as nat * big_h as nat,
                j < ch,
                i <= cw,
                out@.len() == j as nat * cw as nat + i,
                forall|ii: int, jj: int|
                    (0 <= ii < cw && 0 <= jj < j) || (jj == j && 0 <= ii < i) ==> #[trigger] out@[jj
                        * cw + ii] == cells@[(cy + jj) * big_w + cx + ii],
            decreases cw - i,
        {
            proof {
                lemma_grid_index(big_w as int, big_h as int, (cx + i) as int, (cy + j) as int);
            }
            let k = (cy + j) as usize * big_w as usize + (cx + i) as usize;
            let ghost prev = out@;
            out.push(cells[k]);
            proof {
                assert forall|ii: int, jj: int|
                    (0 <= ii < cw && 0 <= jj < j) || (jj == j && 0 <= ii < i + 1) implies #[trigger] out@[jj
                        * cw + ii] == cells@[(cy + jj) * big_w + cx + ii] by {
                    if jj < j {
                        assert(jj * cw + ii < j * cw) by (nonlinear_arith)
                            requires 0 <= ii < cw, 0 <= jj < j;
                        assert(out@[jj * cw + ii] == prev[jj * cw + ii]);
                    } else if ii < i {
                        assert(out@[jj * cw + ii] == prev[jj * cw + ii]);
                    }
                }
            }
            i = i + 1;
        }
        let ghost j_old = j as nat;
        j = j + 1;
        assert(out@.len() == (j_old + 1) * cw as nat) by (nonlinear_arith)
            requires out@.len() == j_old * cw as nat + cw;
    }
    assert(out@.len() == cw as nat * ch as nat) by (nonlinear_arith)
        requires out@.len() == ch as nat * cw as nat;
    out
}

/// Cuts a rectangle out of an image; see `crop_dims`.
pub fn crop(img: &Raster, x: u32, y: u32, w: u32, h: u32) -> (r: Raster)
    requires
        img.wf(),
    ensures
        r.wf(),
        ({
            let (cx, cy, cw, ch) = crop_dims(img.width, img.height, x, y, w, h);
            &&& r.width == cw
            &&& r.height == ch
            &&& forall|i: int, j: int|
                0 <= i < cw && 0 <= j < ch ==> #[trigger] r.at(i, j) == img.at(cx + i, cy + j)
        }),
{
    let pixels = crop_cells(&img.pixels, img.width, img.height, x, y, w, h);
    let cx = if x < img.width { x } else { img.width };
    let cy = if y < img.height { y } else { img.height };
    let cw = if w < img.width - cx { w } else { img.width - cx };
    let ch = if h < img.height - cy { h } else { img.height - cy };
    let r = Raster { width: cw, height: ch, pixels };
    assert forall|i: int, j: int| 0 <= i < cw && 0 <= j < ch implies #[trigger] r.at(i, j) == img.at(
        cx + i,
        cy + j,
    ) by {
        assert(r.pixels@[j * cw + i] == img.pixels@[(cy + j) * img.width + cx + i]);
    }
    r
}

/// Mirrors an image left to right.
pub fn flip_horizontal(img: &mut Raster)
    requires
        old(img).wf(),
    ensures
        final(img).wf(),
        final(img).width == old(img).width,
        final(img).height == old(img).height,
        forall|i: int, j: int|
            0 <= i < old(img).width && 0 <= j < old(img).height ==> #[trigger] final(img).at(i, j)
                == old(img).at(old(img).width - 1 - i, j),
{
    let w = img.width;
    let h = img.height;
    let n = img.pixels.len();
    let mut out: Vec<[u8; 4]> = Vec::new();
    let mut j: u32 = 0;
    while j < h
        invariant
            n == img.pixels@.len(),
            w == img.width,
            h == img.height,
            img.wf(),
            *img == *old(img),
            j <= h,
            out@.len() == j as nat * w as nat,
            forall|ii: int, jj: int|
                0 <= ii < w && 0 <= jj < j ==> #[trigger] out@[jj * w + ii] == img.at(w - 1 - ii, jj),
        decreases h - j,
    {
        let mut i: u32 = 0;
        while i < w
            invariant
                n == img.pixels@.len(),
                w == img.width,
                h == img.height,
                img.wf(),
                *img == *old(img),
                j < h,
                i <= w,
                out@.len() == j as nat * w as nat + i,
                forall|ii: int, jj: int|
                    (0 <= ii < w && 0 <= jj < j) || (jj == j && 0 <= ii < i) ==> #[trigger] out@[jj * w
                        + ii] == img.at(w - 1 - ii, jj),
            decreases w - i,
        {
            proof {
                lemma_grid_index(w as int, h as int, (w - 1 - i) as int, j as int);
            }
            let k = j as usize * w as usize + (w - 1 - i) as usize;
            let ghost prev = out@;
            out.push(img.pixels[k]);
            proof {
                assert forall|ii: int, jj: int|
                    (0 <= ii < w && 0 <= jj < j) || (jj == j && 0 <= ii < i + 1) implies #[trigger] out@[jj
                        * w + ii] == img.at(w - 1 - ii, jj) by {
                    if jj < j {
                        assert(jj * w + ii < j * w) by (nonlinear_arith)
                            requires 0 <= ii < w, 0 <= jj < j;
                        assert(out@[jj * w + ii] == prev[jj * w + ii]);
                    } else if ii < i {
                        assert(out@[jj * w + ii] == prev[jj * w + ii]);
                    }
                }
            }
            i = i + 1;
        }
        let ghost j_old = j as nat;
        j = j + 1;
        assert(out@.len() == (j_old + 1) * w as nat) by (nonlinear_arith)
            requires out@.len() == j_old * w as nat + w;
    }
    img.pixels = out;
    assert(img.pixels@.len() == img.width as nat * img.height as nat) by (nonlinear_arith)
        requires img.pixels@.len() == h as nat * w as nat, w == img.width, h == img.height;
}

/// Copies `other` into `img` with its top-left corner at (`x`, `y`),
/// replacing the pixels under it. Where `other` would stick out of `img`,
/// nothing is copied and `false` is returned.
pub fn copy_from(img: &mut Raster, other: &Raster, x: u32, y: u32) -> (r: bool)
    requires
        old(img).wf(),
        other.wf(),
    ensures
        r <==> (other.width + x <= old(img).width && other.height + y <= old(img).height),
        final(img).wf(),
        final(img).width == old(img).width,
        final(img).height == old(img).height,
        !r ==> final(img).pixels@ == old(img).pixels@,
        r ==> forall|i: int, j: int|
            0 <= i < old(img).width && 0 <= j < old(img).height ==> #[trigger] final(img).at(i, j) == if x
                <= i < x + other.width && y <= j < y + other.height {
                other.at(i - x, j - y)
            } else {
                old(img).at(i, j)
            },
{
    if (img.width as u64) < other.width as u64 + x as u64 || (img.height as u64) < other.height as u64 + y as u64 {
        return false;
    }
    let w = img.width;
    let h = img.height;
    let n = img.pixels.len();
    let on = other.pixels.len();
    let mut k: u32 = 0;
    while k < other.height
        invariant
            n == img.pixels@.len(),
            on == other.pixels@.len(),
            w == img.width,
            h == img.height,
            w == old(img).width,
            h == old(img).height,
            img.wf(),
            other.wf(),
            other.width + x <= w,
            other.height + y <= h,
            k <= other.height,
            forall|i: int, j: int|
                0 <= i < w && 0 <= j < h ==> #[trigger] img.at(i, j) == if x <= i < x + other.width && y
                    <= j < y + k {
                    other.at(i - x, j - y)
                } else {
                    old(img).at(i, j)
                },
        decreases other.height - k,
    {
        let mut i: u32 = 0;
        while i < other.width
            invariant
                n == img.pixels@.len(),
                on == other.pixels@.len(),
                w == img.width,
                h == img.height,
                w == old(img).width,
                h == old(img).height,
                img.wf(),
                other.wf(),
                other.width + x <= w,
                other.height + y <= h,
                k < other.height,
                i <= other.width,
                forall|ii: int, jj: int|
                    0 <= ii < w && 0 <= jj < h ==> #[trigger] img.at(ii, jj) == if (x <= ii < x
                        + other.width && y <= jj < y + k) || (jj == y + k && x <= ii < x + i) {
                        other.at(ii - x, jj - y)
                    } else {
                        old(img).at(ii, jj)
                    },
            decreases other.width - i,
        {
            proof {
                lemma_grid_index(other.width as int, other.height as int, i as int, k as int);
                lemma_grid_index(w as int, h as int, (x + i) as int, (y + k) as int);
            }
            let p = other.pixels[k as usize * other.width as usize + i as usize];
            let dst = (y + k) as usize * w as usize + (x + i) as usize;
            let ghost prev = *img;
            img.pixels.set(dst, p);
            proof {
                assert forall|ii: int, jj: int| 0 <= ii < w && 0 <= jj < h implies #[trigger] img.at(
                    ii,
                    jj,
                ) == if (x <= ii < x + other.width && y <= jj < y + k) || (jj == y + k && x <= ii < x
                    + i + 1) {
                    other.at(ii - x, jj - y)
                } else {
                    old(img).at(ii, jj)
                } by {
                    lemma_grid_index(w as int, h as int, ii, jj);
                    if ii != x + i || jj != y + k {
                        assert(jj * w + ii != dst) by {
                            lemma_grid_index(w as int, h as int, (x + i) as int, (y + k) as int);
                        }
                        assert(img.at(ii, jj) == prev.at(ii, jj));
                    }
                }
            }
            i = i + 1;
        }
        k = k + 1;
    }
    true
}

} // verus!
