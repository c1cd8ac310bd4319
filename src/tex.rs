use vstd::prelude::*;
use crate::error::Error;
use crate::reader::{Reader, rest_after, le_u16, le_u32, first_byte, lemma_rest_after_twice, slice_from};
use crate::pixel::{convert_pixel, decode_pixel, is_known_pixel, pixel_size};
use crate::decompress::{decompress, lzma_output, with_full_header};
use crate::raster::Raster;

verus! {

/// Side of the square blocks in which subtypes 27 and 28 store their pixels.
pub const BLOCK_SIZE: u64 = 32;

/// The views of a list of decoded textures.
pub open spec fn images_view(v: Seq<Raster>) -> Seq<(nat, nat, Seq<Seq<u8>>)> {
    v.map_values(|t: Raster| t.view_of())
}

/// Whether a container of type `t` holds a texture.
pub open spec fn is_texture_type(t: u8) -> bool {
    t == 1 || t == 24 || t == 27 || t == 28
}

/// Whether a texture of container type `t` stores its pixels in blocks.
pub open spec fn is_blocked_type(t: u8) -> bool {
    t == 27 || t == 28
}

/// The `i`-th pixel of a pixel stream `body` of subtype `sub`.
pub open spec fn stream_pixel(sub: u8, body: Seq<u8>, i: nat) -> Seq<u8> {
    decode_pixel(sub, rest_after(body, i as nat * pixel_size(sub)))
}

/// Position in the block-ordered stream of the pixel that belongs at
/// column `x`, row `y` of a `w` × `h` raster.
///
/// Blocks of 32 × 32 pixels are stored row-major, each block row-major
/// inside; blocks on the right and bottom edges are truncated.
pub open spec fn block_index(w: nat, h: nat, x: nat, y: nat) -> nat {
    let bx = x / 32;
    let by = y / 32;
    let bh = if h - by * 32 < 32 { (h - by * 32) as nat } else { 32 };
    let bw = if w - bx * 32 < 32 { (w - bx * 32) as nat } else { 32 };
    by * 32 * w + bx * 32 * bh + (y % 32) * bw + x % 32
}

/// The stream position of raster index `j` for a texture of container type `t`.
pub open spec fn source_index(t: u8, w: nat, h: nat, j: nat) -> nat {
    if is_blocked_type(t) && w > 0 {
        block_index(w, h, j % w, j / w)
    } else {
        j
    }
}

/// The texture of container type `t`, pixel subtype `sub`, size `w` × `h`,
/// whose pixels are read from `body`.
pub open spec fn texture_of(t: u8, sub: u8, w: nat, h: nat, body: Seq<u8>) -> (
    nat,
    nat,
    Seq<Seq<u8>>,
) {
    (w, h, Seq::new(w * h, |j: int| stream_pixel(sub, body, source_index(t, w, h, j as nat))))
}

/// The textures that a decompressed texture stream holds, in order.
///
/// Each block is a type byte and a 32-bit size. Blocks of another type than
/// 1, 24, 27 or 28 are skipped by their size. A texture block goes on with a
/// pixel subtype byte, a 16-bit width and height and the pixels; where the
/// subtype is unknown and the texture not empty, it yields nothing and the
/// stream goes on right after its header.
pub open spec fn tex_images(s: Seq<u8>) -> Seq<(nat, nat, Seq<Seq<u8>>)>
    decreases s.len(),
{
    if s.len() == 0 {
        Seq::empty()
    } else {
        let t = first_byte(s);
        let s1 = rest_after(s, 1);
        let size = le_u32(s1);
        let s2 = rest_after(s1, 4);
        if !is_texture_type(t) {
            tex_images(rest_after(s2, size as nat))
        } else {
            let sub = first_byte(s2);
            let s3 = rest_after(s2, 1);
            let w = le_u16(s3) as nat;
            let s4 = rest_after(s3, 2);
            let h = le_u16(s4) as nat;
            let body = rest_after(s4, 2);
            if w * h > 0 && !is_known_pixel(sub) {
                tex_images(body)
            } else {
                seq![texture_of(t, sub, w, h, body)] + tex_images(
                    rest_after(body, w * h * pixel_size(sub)),
                )
            }
        }
    }
}

/// The pixel subtypes of the texture blocks that a decompressed texture
/// stream abandons (see `tex_images`), in order.
pub open spec fn tex_unknown_subtypes(s: Seq<u8>) -> Seq<u8>
    decreases s.len(),
{
    if s.len() == 0 {
        Seq::empty()
    } else {
        let t = first_byte(s);
        let s1 = rest_after(s, 1);
        let size = le_u32(s1);
        let s2 = rest_after(s1, 4);
        if !is_texture_type(t) {
            tex_unknown_subtypes(rest_after(s2, size as nat))
        } else {
            let sub = first_byte(s2);
            let s3 = rest_after(s2, 1);
            let w = le_u16(s3) as nat;
            let s4 = rest_after(s3, 2);
            let h = le_u16(s4) as nat;
            let body = rest_after(s4, 2);
            if w * h > 0 && !is_known_pixel(sub) {
                seq![sub] + tex_unknown_subtypes(body)
            } else {
                tex_unknown_subtypes(rest_after(body, w * h * pixel_size(sub)))
            }
        }
    }
}

/// What a texture stream holds: its textures, and the pixel subtypes of
/// the texture blocks that had to be abandoned.
pub struct TexContents {
    pub images: Vec<Raster>,
    pub unknown_subtypes: Vec<u8>,
}

proof fn lemma_block_index_bound(w: nat, h: nat, x: nat, y: nat)
    requires
        x < w,
        y < h,
    ensures
        block_index(w, h, x, y) < w * h,
{
    let bx = x / 32;
    let by = y / 32;
    let bh: nat = if h - by * 32 < 32 { (h - by * 32) as nat } else { 32 };
    let bw: nat = if w - bx * 32 < 32 { (w - bx * 32) as nat } else { 32 };
    assert(by * 32 + y % 32 == y) by (nonlinear_arith)
        requires by == y / 32;
    assert(bx * 32 + x % 32 == x) by (nonlinear_arith)
        requires bx == x / 32;
    assert(y % 32 < bh);
    assert(x % 32 < bw);
    assert((y % 32) * bw + x % 32 < bh * bw) by (nonlinear_arith)
        requires y % 32 < bh, x % 32 < bw;
    assert(bx * 32 + bw <= w);
    assert(by * 32 + bh <= h);
    assert(bx * 32 * bh + bh * bw <= bh * w) by (nonlinear_arith)
        requires bx * 32 + bw <= w;
    assert(by * 32 * w + bh * w <= w * h) by (nonlinear_arith)
        requires by * 32 + bh <= h;
}

/// Reorders a block-ordered pixel stream into a row-major `width` × `height`
/// raster: the pixel at column `x`, row `y` is the stream's
/// `block_index(width, height, x, y)`-th.
pub fn adjust_pixels(pixels: &Vec<[u8; 4]>, height: u32, width: u32) -> (r: Vec<[u8; 4]>)
    requires
        pixels@.len() == width as nat * height as nat,
        width <= 0xFFFF,
        height <= 0xFFFF,
    ensures
        r@.len() == pixels@.len(),
        forall|x: nat, y: nat|
            x < width && y < height ==> #[trigger] r@[(y * width as nat + x) as int] == pixels@[block_index(
                width as nat,
                height as nat,
                x,
                y,
            ) as int],
{
    let mut out: Vec<[u8; 4]> = Vec::new();
    let w = width as u64;
    let h = height as u64;
    let mut y: u64 = 0;
    while y < h
        invariant
            w == width,
            h == height,
            w <= 0xFFFF,
            h <= 0xFFFF,
            y <= h,
            pixels@.len() == w * h,
            out@.len() == y * w,
            forall|xx: nat, yy: nat|
                xx < w && yy < y ==> #[trigger] out@[(yy * w + xx) as int] == pixels@[block_index(
                    w as nat,
                    h as nat,
                    xx,
                    yy,
                ) as int],
        decreases h - y,
    {
        let mut x: u64 = 0;
        let by = y / BLOCK_SIZE;
        let bh = if h - by * BLOCK_SIZE < BLOCK_SIZE { h - by * BLOCK_SIZE } else { BLOCK_SIZE };
        while x < w
            invariant
                w == width,
                h == height,
                w <= 0xFFFF,
                h <= 0xFFFF,
                y < h,
                x <= w,
                by == y / 32,
                bh == (if h - by * 32 < 32 { (h - by * 32) as nat } else { 32 }),
                pixels@.len() == w * h,
                out@.len() == y * w + x,
                forall|xx: nat, yy: nat|
                    (yy < y && xx < w) || (yy == y && xx < x) ==> #[trigger] out@[(yy * w + xx) as int]
                        == pixels@[block_index(w as nat, h as nat, xx, yy) as int],
            decreases w - x,
        {
            let bx = x / BLOCK_SIZE;
            let bw = if w - bx * BLOCK_SIZE < BLOCK_SIZE { w - bx * BLOCK_SIZE } else { BLOCK_SIZE };
            proof {
                lemma_block_index_bound(w as nat, h as nat, x as nat, y as nat);
                assert(by * 32 <= y) by (nonlinear_arith) requires by == y / 32;
                assert(bx * 32 <= x) by (nonlinear_arith) requires bx == x / 32;
                assert(by * 32 * w <= 0xFFFF * 0xFFFF) by (nonlinear_arith)
                    requires by * 32 <= y, y < h, h <= 0xFFFF, w <= 0xFFFF;
                assert(bx * 32 * bh <= 0xFFFF * 32) by (nonlinear_arith)
                    requires bx * 32 <= x, x < w, w <= 0xFFFF, bh <= 32;
                assert((y % 32) * bw <= 32 * 32) by (nonlinear_arith) requires bw <= 32;
            }
            let idx = by * BLOCK_SIZE * w + bx * BLOCK_SIZE * bh + (y % BLOCK_SIZE) * bw + x
                % BLOCK_SIZE;
            assert(idx == block_index(w as nat, h as nat, x as nat, y as nat));
            let ghost prev = out@;
            assert(idx < pixels@.len());
            assert(idx < pixels.len());
            let k = idx as usize;
            let p = pixels[k];
            out.push(p);
            proof {
                assert forall|xx: nat, yy: nat|
                    (yy < y && xx < w) || (yy == y && xx < x + 1) implies #[trigger] out@[(yy * w
                        + xx) as int] == pixels@[block_index(w as nat, h as nat, xx, yy) as int] by {
                    if yy < y {
                        assert(yy * w + xx < y * w) by (nonlinear_arith)
                            requires yy < y, xx < w;
                        assert(out@[(yy * w + xx) as int] == prev[(yy * w + xx) as int]);
                    } else if xx < x {
                        assert(out@[(yy * w + xx) as int] == prev[(yy * w + xx) as int]);
                    } else {
                        assert(xx == x && yy == y);
                        assert((yy * w + xx) as int == prev.len());
                        assert(out@[prev.len() as int] == pixels@[idx as int]);
                    }
                }
            }
            x = x + 1;
        }
        y = y + 1;
        assert(out@.len() == y * w) by (nonlinear_arith)
            requires out@.len() == (y - 1) * w + w;
    }
    assert(out@.len() == pixels@.len()) by (nonlinear_arith)
        requires out@.len() == h * w, pixels@.len() == w * h;
    out
}

/// Decodes the `width` × `height` pixels of subtype `sub` at the front of the
/// stream, in stream order.
///
/// Returns `None`, having read nothing, where the subtype is unknown and there
/// is at least one pixel to decode.
pub fn decode_pixels(reader: &mut Reader, sub: u8, width: u32, height: u32) -> (r: Option<
    Vec<[u8; 4]>,
>)
    requires
        width <= 0xFFFF,
        height <= 0xFFFF,
    ensures
        (width as nat * height as nat > 0 && !is_known_pixel(sub)) <==> r is None,
        r matches Some(v) ==> v@.len() == width as nat * height as nat && forall|i: int|
            0 <= i < v@.len() ==> (#[trigger] v@[i])@ == stream_pixel(sub, old(reader)@, i as nat),
        r is Some ==> final(reader)@ == rest_after(
            old(reader)@,
            width as nat * height as nat * pixel_size(sub),
        ),
        r is None ==> final(reader)@ == old(reader)@,
{
    let ghost body = reader@;
    assert(width as u64 * height as u64 <= 0xFFFF * 0xFFFF) by (nonlinear_arith)
        requires width <= 0xFFFF, height <= 0xFFFF;
    let n: u64 = width as u64 * height as u64;
    let mut out: Vec<[u8; 4]> = Vec::new();
    let mut i: u64 = 0;
    proof {
        lemma_rest_after_twice(body, 0, 0);
        assert(rest_after(body, 0) =~= body);
    }
    while i < n
        invariant
            n == width as nat * height as nat,
            body == old(reader)@,
            i <= n,
            out@.len() == i,
            reader@ == rest_after(body, i as nat * pixel_size(sub)),
            i > 0 ==> is_known_pixel(sub),
            forall|j: int| 0 <= j < i ==> (#[trigger] out@[j])@ == stream_pixel(sub, body, j as nat),
        decreases n - i,
    {
        match convert_pixel(reader, sub) {
            Ok(p) => {
                proof {
                    lemma_rest_after_twice(body, i as nat * pixel_size(sub), pixel_size(sub));
                    assert(i * pixel_size(sub) + pixel_size(sub) == (i + 1) * pixel_size(sub))
                        by (nonlinear_arith);
                }
                out.push(p);
                i = i + 1;
            },
            Err(_) => {
                assert(i == 0);
                assert(i as nat * pixel_size(sub) == 0);
                assert(rest_after(body, 0) =~= body);
                return None;
            },
        }
    }
    Some(out)
}

/// Decodes every texture of a decompressed texture stream.
///
/// Blocks that are not textures are skipped; a texture whose pixel subtype is
/// unknown is abandoned and decoding goes on after its header. Textures of
/// container type 27 or 28 are de-interleaved from 32 × 32 blocks.
pub fn parse_tex_stream(stream: Vec<u8>) -> (r: TexContents)
    ensures
        images_view(r.images@) == tex_images(stream@),
        r.unknown_subtypes@ == tex_unknown_subtypes(stream@),
{
    let mut reader = Reader::new(stream);
    let mut images: Vec<Raster> = Vec::new();
    let mut unknown: Vec<u8> = Vec::new();
    while reader.len() > 0
        invariant
            images_view(images@) + tex_images(reader@) == tex_images(stream@),
            unknown@ + tex_unknown_subtypes(reader@) == tex_unknown_subtypes(stream@),
        decreases reader@.len(),
    {
        let ghost s = reader@;
        let file_type = reader.read_byte();
        let file_size = reader.read_uint32();
        if !(file_type == 1 || file_type == 24 || file_type == 27 || file_type == 28) {
            reader.skip(file_size as usize);
            continue;
        }
        let sub_type = reader.read_byte();
        let width = reader.read_uint16() as u32;
        let height = reader.read_uint16() as u32;
        let ghost body = reader@;
        let ghost before = unknown@;
        match decode_pixels(&mut reader, sub_type, width, height) {
            None => {
                unknown.push(sub_type);
                assert(unknown@ + tex_unknown_subtypes(reader@) =~= before + (seq![sub_type]
                    + tex_unknown_subtypes(reader@)));
            },
            Some(pixels) => {
                let ghost iv = images_view(images@);
                let final_pixels = if file_type == 27 || file_type == 28 {
                    adjust_pixels(&pixels, height, width)
                } else {
                    pixels
                };
                let img = Raster { width, height, pixels: final_pixels };
                proof {
                    let t = texture_of(file_type, sub_type, width as nat, height as nat, body);
                    assert forall|j: int| 0 <= j < img.pixels@.len() implies (
                    #[trigger] img.pixels@[j])@ == t.2[j] by {
                        if is_blocked_type(file_type) {
                            let x = (j % width as int) as nat;
                            let y = (j / width as int) as nat;
                            assert(width > 0) by (nonlinear_arith)
                                requires j < width as nat * height as nat, j >= 0;
                            assert(y * width as nat + x == j) by (nonlinear_arith)
                                requires x == j % width as int, y == j / width as int, width > 0;
                            assert(y < height) by (nonlinear_arith)
                                requires y == j / width as int, j < width as nat * height as nat, width > 0, j >= 0;
                            lemma_block_index_bound(width as nat, height as nat, x, y);
                            assert(img.pixels@[(y * width as nat + x) as int] == pixels@[block_index(width as nat, height as nat, x, y) as int]);
                        }
                    }
                    assert(img.view_of().2 =~= t.2);
                    assert(img.view_of() == t);
                    assert(images_view(images@.push(img)) =~= iv.push(t));
                }
                images.push(img);
                proof {
                    assert(seq![texture_of(file_type, sub_type, width as nat, height as nat, body)] + tex_images(reader@) =~= seq![texture_of(file_type, sub_type, width as nat, height as nat, body)].add(tex_images(reader@)));
                    assert(images_view(images@) + tex_images(reader@) =~= iv + (seq![texture_of(file_type, sub_type, width as nat, height as nat, body)] + tex_images(reader@)));
                }
            },
        }
    }
    assert(images_view(images@) =~= images_view(images@) + tex_images(reader@));
    assert(unknown@ =~= unknown@ + tex_unknown_subtypes(reader@));
    TexContents { images, unknown_subtypes: unknown }
}

/// The textures of a compressed `_tex.sc` file: `None` where it is shorter
/// than 35 bytes or the LZMA decoder rejects what follows its first 26 bytes.
pub open spec fn tex_file_images(data: Seq<u8>) -> Option<Seq<(nat, nat, Seq<Seq<u8>>)>> {
    if data.len() < 35 {
        None
    } else {
        match lzma_output(with_full_header(data.subrange(26, data.len() as int))) {
            Some(s) => Some(tex_images(s)),
            None => None,
        }
    }
}

/// The pixel subtypes of the texture blocks abandoned in a compressed
/// `_tex.sc` file, where it decompresses.
pub open spec fn tex_file_unknown_subtypes(data: Seq<u8>) -> Seq<u8> {
    match lzma_output(with_full_header(data.subrange(26, data.len() as int))) {
        Some(s) => tex_unknown_subtypes(s),
        None => Seq::empty(),
    }
}

/// Decodes a compressed `_tex.sc` file into its textures.
///
/// Input shorter than 35 bytes, or that the LZMA decoder rejects once its
/// first 26 bytes are dropped, fails with `DecompressionError`. Texture
/// blocks of unknown pixel subtype are abandoned and reported by subtype.
pub fn decode_tex(data: &[u8]) -> (r: Result<TexContents, Error>)
    ensures
        r is Ok <==> tex_file_images(data@) is Some,
        r matches Ok(c) ==> tex_file_images(data@) == Some(images_view(c.images@))
            && c.unknown_subtypes@ == tex_file_unknown_subtypes(data@),
        r matches Err(e) ==> e is DecompressionError,
{
    if data.len() < 35 {
        return Err(Error::DecompressionError(String::from_str("Size of file is too small")));
    }
    let tail = slice_from(data, 26);
    let decompressed = decompress(tail.as_slice())?;
    Ok(parse_tex_stream(decompressed))
}

/// A texture block of unknown pixel subtype with at least one pixel yields
/// no texture, is reported by its subtype, and decoding goes on right after
/// its header. Since `tex_images` walks a stream block by block, this holds
/// of such a block wherever it stands.
pub proof fn lemma_unknown_subtype_skips(s: Seq<u8>)
    requires
        s.len() >= 10,
        is_texture_type(s[0]),
        !is_known_pixel(s[5]),
        le_u16(rest_after(s, 6)) > 0,
        le_u16(rest_after(s, 8)) > 0,
    ensures
        tex_images(s) == tex_images(rest_after(s, 10)),
        tex_unknown_subtypes(s) == seq![s[5]] + tex_unknown_subtypes(rest_after(s, 10)),
{
    lemma_rest_after_twice(s, 1, 4);
    lemma_rest_after_twice(s, 5, 1);
    lemma_rest_after_twice(s, 6, 2);
    lemma_rest_after_twice(s, 8, 2);
    let w = le_u16(rest_after(s, 6)) as nat;
    let h = le_u16(rest_after(s, 8)) as nat;
    assert(w * h > 0) by (nonlinear_arith)
        requires w > 0, h > 0;
}

/// Decoding the same texture file twice gives the same textures.
pub proof fn lemma_decode_tex_deterministic(data: Seq<u8>, v1: Seq<Raster>, v2: Seq<Raster>)
    requires
        tex_file_images(data) == Some(images_view(v1)),
        tex_file_images(data) == Some(images_view(v2)),
    ensures
        images_view(v1) == images_view(v2),
{
}

} // verus!
