use vstd::prelude::*;
use crate::error::Error;
use crate::geometry::{Point, Region, SheetItem, SpriteItem};
use crate::reader::{Reader, rest_after, le_u16, le_u32, first_byte, lemma_rest_after_twice, slice_from};

verus! {

/// A region as the sprite file describes it.
pub struct RegionModel {
    pub sheet_id: u32,
    pub shape_points: Seq<Point>,
    pub sheet_points: Seq<Point>,
}

/// A sprite as the sprite file describes it.
pub struct SpriteModel {
    pub id: u32,
    pub total_regions: u32,
    pub regions: Seq<RegionModel>,
}

/// What a sprite file has told so far: how many texture and sprite blocks
/// were met, whether the sheets on disk are at half resolution, the declared
/// size of each sheet and the sprites.
pub struct ScModel {
    pub offset_sheet: nat,
    pub offset_shape: nat,
    pub use_low_res: bool,
    pub sheets: Seq<(u32, u32)>,
    pub sprites: Seq<SpriteModel>,
}

/// A raw 16-bit sheet coordinate scaled to a sheet dimension `dim`: the
/// nearest integer to `raw · dim / 65535`, then divided by `divider`.
pub open spec fn scaled(raw: u16, dim: u32, divider: nat) -> i32
    recommends
        divider > 0,
{
    (((2 * raw * dim + 65535) / 131070) / (divider as int)) as i32
}

/// `n` design-space points, each two little-endian `i32`s, at the front of `s`.
pub open spec fn shape_points_at(s: Seq<u8>, n: nat) -> Seq<Point> {
    Seq::new(
        n,
        |i: int|
            Point {
                x: le_u32(rest_after(s, (8 * i) as nat)) as i32,
                y: le_u32(rest_after(s, (8 * i + 4) as nat)) as i32,
            },
    )
}

/// `n` sheet points, each two little-endian `u16`s, at the front of `s`,
/// scaled to a `w` × `h` sheet.
pub open spec fn sheet_points_at(s: Seq<u8>, n: nat, w: u32, h: u32, divider: nat) -> Seq<Point> {
    Seq::new(
        n,
        |i: int|
            Point {
                x: scaled(le_u16(rest_after(s, (4 * i) as nat)), w, divider),
                y: scaled(le_u16(rest_after(s, (4 * i + 2) as nat)), h, divider),
            },
    )
}

/// The region at the front of `s`, and how many bytes it takes.
///
/// A region not tagged 0x16 is only its tag byte and stays empty. `None`
/// where it has points on a sheet that does not exist.
pub open spec fn region_at(s: Seq<u8>, sheets: Seq<(u32, u32)>, divider: nat) -> Option<
    (RegionModel, nat),
> {
    if first_byte(s) != 0x16 {
        Some((RegionModel { sheet_id: 0, shape_points: Seq::empty(), sheet_points: Seq::empty() }, 1))
    } else {
        let sid = first_byte(rest_after(s, 5));
        let n = first_byte(rest_after(s, 6)) as nat;
        if n > 0 && sid >= sheets.len() {
            None
        } else {
            let shape = shape_points_at(rest_after(s, 7), n);
            let sheet = if n > 0 {
                sheet_points_at(
                    rest_after(s, 7 + 8 * n),
                    n,
                    sheets[sid as int].0,
                    sheets[sid as int].1,
                    divider,
                )
            } else {
                Seq::empty()
            };
            Some(
                (
                    RegionModel { sheet_id: sid as u32, shape_points: shape, sheet_points: sheet },
                    7 + 12 * n,
                ),
            )
        }
    }
}

/// The `k` regions at the front of `s`, and how many bytes they take.
pub open spec fn regions_at(s: Seq<u8>, k: nat, sheets: Seq<(u32, u32)>, divider: nat) -> Option<
    (Seq<RegionModel>, nat),
>
    decreases k,
{
    if k == 0 {
        Some((Seq::empty(), 0))
    } else {
        match region_at(s, sheets, divider) {
            None => None,
            Some((r, c)) => match regions_at(rest_after(s, c), (k - 1) as nat, sheets, divider) {
                None => None,
                Some((rs, c2)) => Some((seq![r] + rs, c + c2)),
            },
        }
    }
}

/// How many bytes `k` length-prefixed strings at the front of `s` take.
/// Where `marker` holds, a length of 255 stands for no string at all.
pub open spec fn strings_len(s: Seq<u8>, k: nat, marker: bool) -> nat
    decreases k,
{
    if k == 0 {
        0
    } else {
        let len = first_byte(s) as nat;
        let c = if marker && len == 255 { 1 } else { 1 + len };
        c + strings_len(rest_after(s, c), (k - 1) as nat, marker)
    }
}

/// How many bytes the body of an animation block at the front of `s` takes.
pub open spec fn animation_len(s: Seq<u8>) -> nat {
    let cnt1 = le_u32(rest_after(s, 5)) as i32;
    let a = 9 + if cnt1 > 0 { 6 * cnt1 } else { 0 };
    let cnt2 = le_u16(rest_after(s, a as nat)) as i16;
    let k: nat = if cnt2 > 0 { cnt2 as nat } else { 0 };
    let b = a + 2 + 3 * k;
    (b + strings_len(rest_after(s, b as nat), k, true)) as nat
}

/// The model with the `o`-th sheet declared `w` × `h`.
pub open spec fn with_sheet(m: ScModel, w: u32, h: u32, png: (u32, u32)) -> ScModel {
    ScModel {
        offset_sheet: m.offset_sheet + 1,
        use_low_res: m.use_low_res || (png.0 != w && png.1 != h),
        sheets: m.sheets.update(m.offset_sheet as int, (w, h)),
        ..m
    }
}

/// The model with the next sprite set.
pub open spec fn with_sprite(m: ScModel, sp: SpriteModel) -> ScModel {
    ScModel {
        offset_shape: m.offset_shape + 1,
        sprites: m.sprites.update(m.offset_shape as int, sp),
        ..m
    }
}

/// The divider that sheet points are scaled down by.
pub open spec fn divider_of(low: bool) -> nat {
    if low {
        2
    } else {
        1
    }
}

/// Walks the tagged blocks of a sprite file from `s` on, `pngs` being the
/// sizes of the sheet images on disk.
///
/// `None` where a texture block or a sprite block has no slot left, or a
/// region lies on a sheet that does not exist.
pub open spec fn blocks(s: Seq<u8>, m: ScModel, pngs: Seq<(u32, u32)>) -> Option<ScModel>
    decreases s.len(),
{
    if s.len() == 0 {
        Some(m)
    } else {
        let tag = first_byte(s);
        let size = le_u32(rest_after(s, 1));
        let s2 = rest_after(s, 5);
        if tag == 0x01 || tag == 0x18 {
            if m.offset_sheet >= m.sheets.len() || m.offset_sheet >= pngs.len() {
                None
            } else {
                let w = le_u16(rest_after(s2, 1)) as u32;
                let h = le_u16(rest_after(s2, 3)) as u32;
                blocks(rest_after(s2, 5), with_sheet(m, w, h, pngs[m.offset_sheet as int]), pngs)
            }
        } else if tag == 0x1e || tag == 0x1a {
            blocks(s2, m, pngs)
        } else if tag == 0x12 {
            if m.offset_shape >= m.sprites.len() {
                None
            } else {
                let id = le_u16(s2) as u32;
                let total = le_u16(rest_after(s2, 2)) as u32;
                match regions_at(
                    rest_after(s2, 6),
                    total as nat,
                    m.sheets,
                    divider_of(m.use_low_res),
                ) {
                    None => None,
                    Some((rs, c)) => blocks(
                        rest_after(s2, 6 + c + 5),
                        with_sprite(m, SpriteModel { id, total_regions: total, regions: rs }),
                        pngs,
                    ),
                }
            }
        } else if tag == 0x08 {
            blocks(rest_after(s2, 24), m, pngs)
        } else if tag == 0x0c {
            blocks(rest_after(s2, animation_len(s2)), m, pngs)
        } else {
            blocks(rest_after(s2, size as nat), m, pngs)
        }
    }
}

/// Number of sprites a sprite file declares.
pub open spec fn shape_count_of(s: Seq<u8>) -> u16 {
    le_u16(s)
}

/// Number of sheets a sprite file declares.
pub open spec fn texture_count_of(s: Seq<u8>) -> u16 {
    le_u16(rest_after(s, 4))
}

/// Where the tagged blocks of a sprite file begin: after the 12-byte header,
/// 5 bytes, the export count, the export ids and the export names.
pub open spec fn blocks_start(s: Seq<u8>) -> nat {
    let e = le_u16(rest_after(s, 17)) as nat;
    let a = 19 + 2 * e;
    a + strings_len(rest_after(s, a), e, false)
}

/// The model that a whole sprite file describes, `pngs` being the sizes of
/// its sheet images on disk.
pub open spec fn sc_model(s: Seq<u8>, pngs: Seq<(u32, u32)>) -> Option<ScModel> {
    blocks(
        rest_after(s, blocks_start(s)),
        ScModel {
            offset_sheet: 0,
            offset_shape: 0,
            use_low_res: false,
            sheets: Seq::new(texture_count_of(s) as nat, |i: int| (0u32, 0u32)),
            sprites: Seq::new(
                shape_count_of(s) as nat,
                |i: int| SpriteModel { id: 0, total_regions: 0, regions: Seq::empty() },
            ),
        },
        pngs,
    )
}

} // verus!

verus! {

/// A region's part in the model.
pub open spec fn region_model(r: Region) -> RegionModel {
    RegionModel { sheet_id: r.sheet_id, shape_points: r.shape_points@, sheet_points: r.sheet_points@ }
}

/// A sprite's part in the model.
pub open spec fn sprite_model(s: SpriteItem) -> SpriteModel {
    SpriteModel {
        id: s.id,
        total_regions: s.total_regions,
        regions: s.regions@.map_values(|r: Region| region_model(r)),
    }
}

/// The declared sizes of the sheets.
pub open spec fn sheet_dims(sheets: Seq<SheetItem>) -> Seq<(u32, u32)> {
    sheets.map_values(|s: SheetItem| (s.x, s.y))
}

/// Every region is consistent and not yet laid out.
pub open spec fn regions_fresh(rs: Seq<Region>) -> bool {
    forall|j: int| 0 <= j < rs.len() ==> (#[trigger] rs[j]).wf() && rs[j].is_fresh()
}

/// `raw · dim / 65535` rounded to nearest, then divided by `divider`.
pub fn scale_coord(raw: u16, dim: u32, divider: u32) -> (r: i32)
    requires
        divider == 1 || divider == 2,
    ensures
        r == scaled(raw, dim, divider as nat),
{
    assert(2 * raw * dim + 65535 <= 2 * 0xFFFF * 0xFFFF_FFFF + 65535) by (nonlinear_arith)
        requires raw <= 0xFFFF, dim <= 0xFFFF_FFFF;
    let v: u64 = (2 * raw as u64 * dim as u64 + 65535) / 131070;
    (v / divider as u64) as i32
}

/// Reads one region of a sprite block; see `region_at`.
fn read_region(reader: &mut Reader, sheets: &Vec<SheetItem>, divider: u32) -> (r: Result<
    Region,
    Error,
>)
    requires
        divider == 1 || divider == 2,
    ensures
        match region_at(old(reader)@, sheet_dims(sheets@), divider as nat) {
            None => r is Err && r->Err_0 is Other,
            Some((m, c)) => r matches Ok(reg) && region_model(reg) == m && reg.wf() && reg.is_fresh()
                && final(reader)@ == rest_after(old(reader)@, c),
        },
{
    let ghost s = reader@;
    let tag = reader.read_byte();
    if tag != 0x16 {
        let reg = Region::new(0, Vec::new(), Vec::new());
        assert(region_model(reg) == region_at(s, sheet_dims(sheets@), divider as nat)->Some_0.0);
        return Ok(reg);
    }
    reader.skip(4);
    let sheet_id = reader.read_byte();
    let num_points = reader.read_byte();
    proof {
        lemma_rest_after_twice(s, 1, 4);
        lemma_rest_after_twice(s, 5, 1);
        lemma_rest_after_twice(s, 6, 1);
    }
    if num_points > 0 && sheet_id as usize >= sheets.len() {
        return Err(Error::Other(String::from_str("Region refers to a sheet that does not exist")));
    }
    let n = num_points as usize;
    let ghost s7 = reader@;
    let mut shape_points: Vec<Point> = Vec::new();
    let mut z: usize = 0;
    while z < n
        invariant
            z <= n,
            n <= 255,
            shape_points@.len() == z,
            reader@ == rest_after(s7, 8 * z as nat),
            forall|i: int| 0 <= i < z ==> #[trigger] shape_points@[i] == shape_points_at(s7, n as nat)[i],
        decreases n - z,
    {
        let x = reader.read_int32();
        proof {
            lemma_rest_after_twice(s7, 8 * z as nat, 4);
        }
        let y = reader.read_int32();
        proof {
            lemma_rest_after_twice(s7, 8 * z as nat + 4, 4);
        }
        shape_points.push(Point::new(x, y));
        z = z + 1;
    }
    assert(shape_points@ =~= shape_points_at(s7, n as nat));
    let ghost s8 = reader@;
    let mut sheet_points: Vec<Point> = Vec::new();
    if n > 0 {
        let w = sheets[sheet_id as usize].x;
        let h = sheets[sheet_id as usize].y;
        z = 0;
        while z < n
            invariant
                z <= n,
                n <= 255,
                divider == 1 || divider == 2,
                sheet_points@.len() == z,
                reader@ == rest_after(s8, 4 * z as nat),
                forall|i: int|
                    0 <= i < z ==> #[trigger] sheet_points@[i] == sheet_points_at(
                        s8,
                        n as nat,
                        w,
                        h,
                        divider as nat,
                    )[i],
            decreases n - z,
        {
            let sx = reader.read_uint16();
            proof {
                lemma_rest_after_twice(s8, 4 * z as nat, 2);
            }
            let sy = reader.read_uint16();
            proof {
                lemma_rest_after_twice(s8, 4 * z as nat + 2, 2);
            }
            let x = scale_coord(sx, w, divider);
            let y = scale_coord(sy, h, divider);
            sheet_points.push(Point::new(x, y));
            z = z + 1;
        }
        assert(sheet_points@ =~= sheet_points_at(s8, n as nat, w, h, divider as nat));
    } else {
        assert(sheet_points@ =~= Seq::<Point>::empty());
    }
    proof {
        lemma_rest_after_twice(s, 7, 8 * n as nat);
        lemma_rest_after_twice(s, 7 + 8 * n as nat, 4 * n as nat);
    }
    let reg = Region::new(sheet_id as u32, shape_points, sheet_points);
    Ok(reg)
}

/// What reading `k` regions yields, given what was read before: `acc`
/// regions taking `c0` bytes.
pub open spec fn after_regions(
    acc: Seq<RegionModel>,
    c0: nat,
    rest: Option<(Seq<RegionModel>, nat)>,
) -> Option<(Seq<RegionModel>, nat)> {
    match rest {
        None => None,
        Some((rs, c)) => Some((acc + rs, c0 + c)),
    }
}

/// Reads the `total` regions of a sprite block; see `regions_at`.
fn read_regions(reader: &mut Reader, total: u32, sheets: &Vec<SheetItem>, divider: u32) -> (r:
    Result<Vec<Region>, Error>)
    requires
        divider == 1 || divider == 2,
    ensures
        match regions_at(old(reader)@, total as nat, sheet_dims(sheets@), divider as nat) {
            None => r is Err && r->Err_0 is Other,
            Some((ms, c)) => r matches Ok(rs) && rs@.map_values(|x: Region| region_model(x)) == ms
                && regions_fresh(rs@) && final(reader)@ == rest_after(old(reader)@, c),
        },
{
    let ghost s = reader@;
    let ghost dims = sheet_dims(sheets@);
    let mut regions: Vec<Region> = Vec::new();
    let mut j: u32 = 0;
    let ghost mut c0: nat = 0;
    assert(rest_after(s, 0) =~= s);
    assert(regions@.map_values(|x: Region| region_model(x)) =~= Seq::<RegionModel>::empty());
    while j < total
        invariant
            j <= total,
            divider == 1 || divider == 2,
            dims == sheet_dims(sheets@),
            s == old(reader)@,
            reader@ == rest_after(s, c0),
            regions_fresh(regions@),
            regions_at(s, total as nat, dims, divider as nat) == after_regions(
                regions@.map_values(|x: Region| region_model(x)),
                c0,
                regions_at(reader@, (total - j) as nat, dims, divider as nat),
            ),
        decreases total - j,
    {
        let ghost cur = reader@;
        let ghost before = regions@;
        match read_region(reader, sheets, divider) {
            Err(e) => {
                assert(regions_at(cur, (total - j) as nat, dims, divider as nat) is None);
                return Err(e);
            },
            Ok(reg) => {
                proof {
                    let (m, c) = region_at(cur, dims, divider as nat)->Some_0;
                    lemma_rest_after_twice(s, c0, c);
                    c0 = c0 + c;
                    let next = regions_at(reader@, (total - j - 1) as nat, dims, divider as nat);
                    assert(before.push(reg).map_values(|x: Region| region_model(x)) =~= before.map_values(
                        |x: Region| region_model(x),
                    ) + seq![m]);
                    match next {
                        None => {},
                        Some((rs, c2)) => {
                            assert(before.map_values(|x: Region| region_model(x)) + (seq![m] + rs) =~= (
                            before.map_values(|x: Region| region_model(x)) + seq![m]) + rs);
                        },
                    }
                }
                regions.push(reg);
                j = j + 1;
            },
        }
    }
    proof {
        assert(regions@.map_values(|x: Region| region_model(x)) + Seq::<RegionModel>::empty() =~= regions@.map_values(|x: Region| region_model(x)));
    }
    Ok(regions)
}

/// Skips `count` length-prefixed strings; see `strings_len`.
fn skip_strings(reader: &mut Reader, count: u32, marker: bool)
    ensures
        final(reader)@ == rest_after(old(reader)@, strings_len(old(reader)@, count as nat, marker)),
{
    let ghost s = reader@;
    let ghost mut c0: nat = 0;
    let mut k: u32 = 0;
    assert(rest_after(s, 0) =~= s);
    while k < count
        invariant
            k <= count,
            reader@ == rest_after(s, c0),
            strings_len(s, count as nat, marker) == c0 + strings_len(reader@, (count - k) as nat, marker),
        decreases count - k,
    {
        let ghost cur = reader@;
        let length = reader.read_byte();
        if !(marker && length == 255) {
            reader.skip(length as usize);
        }
        proof {
            let c: nat = if marker && length == 255 { 1 } else { 1 + length as nat };
            lemma_rest_after_twice(cur, 1, length as nat);
            lemma_rest_after_twice(s, c0, c);
            c0 = c0 + c;
        }
        k = k + 1;
    }
}

/// Skips the body of an animation block; see `animation_len`.
fn skip_animation(reader: &mut Reader)
    ensures
        final(reader)@ == rest_after(old(reader)@, animation_len(old(reader)@)),
{
    let ghost s = reader@;
    reader.skip(5);
    let cnt_1 = reader.read_int32();
    proof {
        lemma_rest_after_twice(s, 5, 4);
    }
    if cnt_1 > 0 {
        let mut t: u32 = 0;
        while t < 6
            invariant
                t <= 6,
                cnt_1 > 0,
                reader@ == rest_after(s, (9 + t * cnt_1) as nat),
            decreases 6 - t,
        {
            let ghost cur = reader@;
            reader.skip(cnt_1 as usize);
            proof {
                lemma_rest_after_twice(s, (9 + t * cnt_1) as nat, cnt_1 as nat);
                assert(9 + t * cnt_1 + cnt_1 == 9 + (t + 1) * cnt_1) by (nonlinear_arith);
            }
            t = t + 1;
        }
    }
    let ghost a: nat = (9 + if cnt_1 > 0 { 6 * cnt_1 } else { 0 }) as nat;
    proof {
        lemma_rest_after_twice(s, 9, (a - 9) as nat);
    }
    let cnt_2 = reader.read_int16();
    proof {
        lemma_rest_after_twice(s, a, 2);
    }
    let k: u32 = if cnt_2 > 0 { cnt_2 as u32 } else { 0 };
    reader.skip(3 * k as usize);
    proof {
        lemma_rest_after_twice(s, a + 2, 3 * k as nat);
    }
    let ghost b = reader@;
    skip_strings(reader, k, true);
    proof {
        lemma_rest_after_twice(s, a + 2 + 3 * k as nat, strings_len(b, k as nat, true));
    }
}

/// A parsed sprite file: its sheets and sprites, regions not yet laid out.
pub struct ScFile {
    pub shape_count: u16,
    /// Whether the sheet images on disk are at half the declared resolution.
    pub use_low_res: bool,
    pub sheets: Vec<SheetItem>,
    pub sprites: Vec<SpriteItem>,
}

/// The model that the parser's state stands for.
pub open spec fn state_model(
    offset_sheet: usize,
    offset_shape: usize,
    use_low_res: bool,
    sheets: Seq<SheetItem>,
    sprites: Seq<SpriteItem>,
) -> ScModel {
    ScModel {
        offset_sheet: offset_sheet as nat,
        offset_shape: offset_shape as nat,
        use_low_res,
        sheets: sheet_dims(sheets),
        sprites: sprites.map_values(|s: SpriteItem| sprite_model(s)),
    }
}

/// Every region of every sprite is consistent and not yet laid out.
pub open spec fn sprites_fresh(sprites: Seq<SpriteItem>) -> bool {
    forall|i: int| 0 <= i < sprites.len() ==> regions_fresh(#[trigger] sprites[i].regions@)
}

/// Number of sheet images that a sprite file needs.
pub fn sc_texture_count(data: &[u8]) -> (r: u16)
    ensures
        r == texture_count_of(data@),
{
    let mut reader = Reader::new(slice_from(data, 0));
    assert(data@.subrange(0, data@.len() as int) =~= data@);
    reader.skip(4);
    reader.read_uint16()
}

/// Parses an extracted sprite file. `sheet_sizes` holds the width and
/// height of each sheet image on disk, in order.
///
/// Fails with `Other` where the file has more texture or sprite blocks than
/// its header declares, or a region with points on a sheet that does not
/// exist.
pub fn parse_sc(data: &[u8], sheet_sizes: &Vec<(u32, u32)>) -> (r: Result<ScFile, Error>)
    ensures
        match sc_model(data@, sheet_sizes@) {
            None => r is Err && r->Err_0 is Other,
            Some(m) => r matches Ok(f) && describes(f, data@, m),
        },
{
    let mut reader = Reader::new(slice_from(data, 0));
    let ghost d = data@;
    assert(data@.subrange(0, data@.len() as int) =~= d);
    let shape_count = reader.read_uint16();
    reader.skip(2);
    proof {
        lemma_rest_after_twice(d, 2, 2);
    }
    let total_textures = reader.read_uint16();
    proof {
        lemma_rest_after_twice(d, 4, 2);
    }
    reader.skip(6);
    proof {
        lemma_rest_after_twice(d, 6, 6);
    }
    reader.skip(5);
    proof {
        lemma_rest_after_twice(d, 12, 5);
    }
    let export_count = reader.read_uint16();
    proof {
        lemma_rest_after_twice(d, 17, 2);
    }
    reader.skip(2 * export_count as usize);
    proof {
        lemma_rest_after_twice(d, 19, 2 * export_count as nat);
    }
    let ghost a = reader@;
    skip_strings(&mut reader, export_count as u32, false);
    proof {
        lemma_rest_after_twice(d, 19 + 2 * export_count as nat, strings_len(a, export_count as nat, false));
    }

    let mut sheets: Vec<SheetItem> = Vec::new();
    let mut k: u16 = 0;
    while k < total_textures
        invariant
            k <= total_textures,
            sheets@.len() == k,
            forall|i: int| 0 <= i < k ==> (#[trigger] sheets@[i]).x == 0 && sheets@[i].y == 0,
        decreases total_textures - k,
    {
        sheets.push(SheetItem::new(0, 0, 1));
        k = k + 1;
    }
    assert(sheet_dims(sheets@) =~= Seq::new(k as nat, |i: int| (0u32, 0u32)));
    let mut sprites: Vec<SpriteItem> = Vec::new();
    k = 0;
    while k < shape_count
        invariant
            k <= shape_count,
            sprites@.len() == k,
            sprites_fresh(sprites@),
            forall|i: int|
                0 <= i < k ==> #[trigger] sprite_model(sprites@[i]) == (SpriteModel {
                    id: 0,
                    total_regions: 0,
                    regions: Seq::empty(),
                }),
        decreases shape_count - k,
    {
        let sp = SpriteItem::new(0, 0, Vec::new());
        assert(sp.regions@.map_values(|r: Region| region_model(r)) =~= Seq::<RegionModel>::empty());
        sprites.push(sp);
        k = k + 1;
    }
    assert(sprites@.map_values(|s: SpriteItem| sprite_model(s)) =~= Seq::new(
        k as nat,
        |i: int| SpriteModel { id: 0, total_regions: 0, regions: Seq::empty() },
    ));

    let mut offset_sheet: usize = 0;
    let mut offset_shape: usize = 0;
    let mut use_low_res = false;
    let ghost start = reader@;
    let ghost pngs = sheet_sizes@;
    assert(sc_model(d, pngs) == blocks(
        start,
        state_model(offset_sheet, offset_shape, use_low_res, sheets@, sprites@),
        pngs,
    ));
    while reader.len() > 0
        invariant
            pngs == sheet_sizes@,
            d == data@,
            shape_count == shape_count_of(d),
            sprites_fresh(sprites@),
            sc_model(d, pngs) == blocks(
                reader@,
                state_model(offset_sheet, offset_shape, use_low_res, sheets@, sprites@),
                pngs,
            ),
        decreases reader@.len(),
    {
        let ghost s = reader@;
        let ghost m = state_model(offset_sheet, offset_shape, use_low_res, sheets@, sprites@);
        let tag = reader.read_byte();
        let size = reader.read_uint32();
        proof {
            lemma_rest_after_twice(s, 1, 4);
        }
        let ghost s2 = reader@;
        if tag == 0x01 || tag == 0x18 {
            if offset_sheet >= sheets.len() || offset_sheet >= sheet_sizes.len() {
                assert(blocks(s, m, pngs) is None);
                return Err(Error::Other(String::from_str("More textures than the header declares")));
            }
            reader.skip(1);
            let w = reader.read_uint16() as u32;
            proof {
                lemma_rest_after_twice(s2, 1, 2);
            }
            let h = reader.read_uint16() as u32;
            proof {
                lemma_rest_after_twice(s2, 3, 2);
            }
            sheets.set(offset_sheet, SheetItem::new(w, h, 1));
            let (png_w, png_h) = sheet_sizes[offset_sheet];
            if png_w != w && png_h != h {
                use_low_res = true;
            }
            offset_sheet = offset_sheet + 1;
            proof {
                assert(sheet_dims(sheets@) =~= m.sheets.update(m.offset_sheet as int, (w, h)));
                assert(state_model(offset_sheet, offset_shape, use_low_res, sheets@, sprites@)
                    == with_sheet(m, w, h, pngs[m.offset_sheet as int]));
            }
        } else if tag == 0x1e || tag == 0x1a {
        } else if tag == 0x12 {
            if offset_shape >= sprites.len() {
                assert(blocks(s, m, pngs) is None);
                return Err(Error::Other(String::from_str("More sprites than the header declares")));
            }
            let divider: u32 = if use_low_res { 2 } else { 1 };
            let id = reader.read_uint16() as u32;
            let total_regions = reader.read_uint16() as u32;
            proof {
                lemma_rest_after_twice(s2, 2, 2);
            }
            reader.skip(2);
            proof {
                lemma_rest_after_twice(s2, 4, 2);
            }
            let ghost s6 = reader@;
            let regions = match read_regions(&mut reader, total_regions, &sheets, divider) {
                Ok(rs) => rs,
                Err(e) => {
                    return Err(e);
                },
            };
            let ghost c = regions_at(s6, total_regions as nat, m.sheets, divider as nat)->Some_0.1;
            proof {
                lemma_rest_after_twice(s2, 6, c);
            }
            reader.skip(5);
            proof {
                lemma_rest_after_twice(s2, 6 + c, 5);
            }
            let sp = SpriteItem::new(id, total_regions, regions);
            let ghost spm = sprite_model(sp);
            sprites.set(offset_shape, sp);
            offset_shape = offset_shape + 1;
            proof {
                assert(sprites@.map_values(|s: SpriteItem| sprite_model(s)) =~= m.sprites.update(
                    m.offset_shape as int,
                    spm,
                ));
                assert(state_model(offset_sheet, offset_shape, use_low_res, sheets@, sprites@)
                    == with_sprite(m, spm));
                assert forall|i: int| 0 <= i < sprites@.len() implies regions_fresh(
                    #[trigger] sprites@[i].regions@,
                ) by {
                    if i != m.offset_shape {
                    }
                }
            }
        } else if tag == 0x08 {
            reader.skip(24);
        } else if tag == 0x0c {
            skip_animation(&mut reader);
        } else {
            reader.skip(size as usize);
        }
    }
    assert(sc_model(d, pngs) == Some(
        state_model(offset_sheet, offset_shape, use_low_res, sheets@, sprites@),
    ));
    let divider: u32 = if use_low_res { 2 } else { 1 };
    let n = sheets.len();
    let mut j: usize = 0;
    let ghost dims = sheet_dims(sheets@);
    while j < n
        invariant
            n == sheets@.len(),
            j <= n,
            sheet_dims(sheets@) == dims,
            forall|i: int| 0 <= i < j ==> (#[trigger] sheets@[i]).divider == divider,
        decreases n - j,
    {
        let x = sheets[j].x;
        let y = sheets[j].y;
        sheets.set(j, SheetItem::new(x, y, divider));
        j = j + 1;
        assert(sheet_dims(sheets@) =~= dims);
    }
    Ok(ScFile { shape_count, use_low_res, sheets, sprites })
}

/// Sheet points read for half-resolution sheets are those read for
/// full-resolution ones, halved (rounding down).
pub proof fn lemma_low_res_halves(s: Seq<u8>, n: nat, w: u32, h: u32)
    requires
        w <= 0xFFFF,
        h <= 0xFFFF,
    ensures
        forall|i: int|
            0 <= i < n ==> (#[trigger] sheet_points_at(s, n, w, h, 2)[i]).x == sheet_points_at(
                s,
                n,
                w,
                h,
                1,
            )[i].x / 2 && sheet_points_at(s, n, w, h, 2)[i].y == sheet_points_at(s, n, w, h, 1)[i].y
                / 2,
{
    assert forall|i: int| 0 <= i < n implies (#[trigger] sheet_points_at(s, n, w, h, 2)[i]).x
        == sheet_points_at(s, n, w, h, 1)[i].x / 2 && sheet_points_at(s, n, w, h, 2)[i].y
        == sheet_points_at(s, n, w, h, 1)[i].y / 2 by {
        let rx = le_u16(rest_after(s, (4 * i) as nat));
        let ry = le_u16(rest_after(s, (4 * i + 2) as nat));
        assert((2 * rx * w + 65535) / 131070 <= 0xFFFF) by (nonlinear_arith)
            requires rx <= 0xFFFF, w <= 0xFFFF;
        assert((2 * ry * h + 65535) / 131070 <= 0xFFFF) by (nonlinear_arith)
            requires ry <= 0xFFFF, h <= 0xFFFF;
        assert((2 * rx * w + 65535) / 131070 >= 0) by (nonlinear_arith)
            requires rx >= 0, w >= 0;
        assert((2 * ry * h + 65535) / 131070 >= 0) by (nonlinear_arith)
            requires ry >= 0, h >= 0;
    }
}

/// What `parse_sc` promises of a file it returns for the model `m` of `data`.
pub open spec fn describes(f: ScFile, data: Seq<u8>, m: ScModel) -> bool {
    &&& f.shape_count == shape_count_of(data)
    &&& f.use_low_res == m.use_low_res
    &&& sheet_dims(f.sheets@) == m.sheets
    &&& f.sprites@.map_values(|s: SpriteItem| sprite_model(s)) == m.sprites
    &&& sprites_fresh(f.sprites@)
    &&& forall|i: int|
        0 <= i < f.sheets@.len() ==> (#[trigger] f.sheets@[i]).divider == divider_of(m.use_low_res)
}

/// Parsing the same sprite file twice, with the same sheet images, gives
/// the same sheets and sprites.
pub proof fn lemma_parse_sc_deterministic(
    data: Seq<u8>,
    pngs: Seq<(u32, u32)>,
    f1: ScFile,
    f2: ScFile,
)
    requires
        sc_model(data, pngs) is Some,
        describes(f1, data, sc_model(data, pngs)->Some_0),
        describes(f2, data, sc_model(data, pngs)->Some_0),
    ensures
        f1.shape_count == f2.shape_count,
        f1.use_low_res == f2.use_low_res,
        sheet_dims(f1.sheets@) == sheet_dims(f2.sheets@),
        f1.sprites@.map_values(|s: SpriteItem| sprite_model(s)) == f2.sprites@.map_values(
            |s: SpriteItem| sprite_model(s),
        ),
{
}

/// Every region of a parsed file is consistent, not yet laid out, and holds
/// the points that the model reads for it from the file.
pub proof fn lemma_parsed_region(f: ScFile, data: Seq<u8>, m: ScModel, i: int, j: int)
    requires
        describes(f, data, m),
        0 <= i < f.sprites@.len(),
        0 <= j < f.sprites@[i].regions@.len(),
    ensures
        ({
            let r = f.sprites@[i].regions@[j];
            let rm = m.sprites[i].regions[j];
            &&& r.num_points == r.shape_points@.len()
            &&& r.num_points == r.sheet_points@.len()
            &&& r.is_fresh()
            &&& r.sheet_id == rm.sheet_id
            &&& r.shape_points@ == rm.shape_points
            &&& r.sheet_points@ == rm.sheet_points
        }),
{
    assert(f.sprites@.map_values(|s: SpriteItem| sprite_model(s))[i] == sprite_model(f.sprites@[i]));
    assert(regions_fresh(f.sprites@[i].regions@));
    assert(sprite_model(f.sprites@[i]).regions[j] == region_model(f.sprites@[i].regions@[j]));
}

} // verus!
