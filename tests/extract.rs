use sc_extract::compose::{compose_sprite, get_bbox, masked_overlay, needs_rotation, new_canvas, paste_region, region_piece};
use sc_extract::decompress::{decompress, fix_header};
use sc_extract::geometry::{layout_region, layout_sprites, region_rotation, Point, Region, SheetItem, SpriteGlobal, SpriteItem};
use sc_extract::names::{index_width, sheet_file_name, sprite_file_name, tex_file_name};
use sc_extract::pixel::convert_pixel;
use sc_extract::raster::{copy_from, crop, flip_horizontal, Raster};
use sc_extract::sc::{parse_sc, sc_texture_count, scale_coord};
use sc_extract::tex::{adjust_pixels, decode_tex, parse_tex_stream};
use sc_extract::{Error, Reader};

fn pts(v: &[(i32, i32)]) -> Vec<Point> {
    v.iter().map(|&(x, y)| Point::new(x, y)).collect()
}

/// Wraps a decompressed texture stream the way the game stores it: a
/// 26-byte container header, then LZMA with the upper half of the size left out.
fn tex_file(stream: &[u8]) -> Vec<u8> {
    let mut packed = Vec::new();
    let options = lzma_rs::compress::Options {
        unpacked_size: lzma_rs::compress::UnpackedSize::WriteToHeader(Some(stream.len() as u64)),
    };
    lzma_rs::lzma_compress_with_options(&mut &stream[..], &mut packed, &options).unwrap();
    let mut data = vec![0u8; 26];
    data.extend_from_slice(&packed[0..9]);
    data.extend_from_slice(&packed[13..]);
    data
}

fn square_region() -> Region {
    Region::new(
        0,
        pts(&[(0, 0), (10, 0), (10, 10), (0, 10)]),
        pts(&[(0, 0), (20, 0), (20, 20), (0, 20)]),
    )
}

#[test]
fn error_inner_returns_message() {
    let e = Error::Other("boom".to_string());
    assert_eq!(e.inner(), "boom");
    let e = Error::UnknownPixel("x".to_string());
    assert_eq!(e.inner(), "x");
}

#[test]
fn reader_reads_little_endian() {
    let mut r = Reader::new(vec![0x34, 0x12, 0x78, 0x56, 0x34, 0x12, 0xFF, 0xFF, 7]);
    assert_eq!(r.len(), 9);
    assert_eq!(r.read_uint16(), 0x1234);
    assert_eq!(r.read_uint32(), 0x1234_5678);
    assert_eq!(r.read_int16(), -1);
    assert_eq!(r.read_byte(), 7);
    assert_eq!(r.len(), 0);
}

#[test]
fn reader_short_read_pads_and_exhausts() {
    let mut r = Reader::new(vec![1, 2, 3]);
    assert_eq!(r.read(5), vec![1, 2, 3, 0, 0]);
    assert_eq!(r.len(), 0);
    assert_eq!(r.read_uint32(), 0);
    assert_eq!(r.read_byte(), 0);
    assert_eq!(r.len(), 0);
    let mut r = Reader::new(vec![1, 2, 3]);
    assert_eq!(r.read_uint32(), 0);
    assert_eq!(r.len(), 0);
}

#[test]
fn reader_exact_read_returns_data() {
    let mut r = Reader::new(vec![9, 8, 7]);
    assert_eq!(r.read(3), vec![9, 8, 7]);
    assert_eq!(r.len(), 0);
    let mut r = Reader::new(vec![0xFE, 0xFF, 0xFF, 0xFF]);
    assert_eq!(r.read_int32(), -2);
}

#[test]
fn reader_read_string_is_lossy() {
    let mut r = Reader::new(vec![b'h', b'i', 0xFF, b'!']);
    assert_eq!(r.read_string(2), "hi");
    assert_eq!(r.read_string(1), "\u{FFFD}");
    assert_eq!(r.len(), 1);
}

#[test]
fn pixel_rgba8888() {
    let mut r = Reader::new(vec![1, 2, 3, 4, 5]);
    assert_eq!(convert_pixel(&mut r, 0).unwrap(), [1, 2, 3, 4]);
    assert_eq!(r.len(), 1);
}

#[test]
fn pixel_rgba4444() {
    let mut r = Reader::new(vec![0x34, 0x12]);
    assert_eq!(convert_pixel(&mut r, 2).unwrap(), [0x10, 0x20, 0x30, 0x40]);
}

#[test]
fn pixel_rgba5551() {
    let mut r = Reader::new(vec![0xFF, 0xFF]);
    assert_eq!(convert_pixel(&mut r, 3).unwrap(), [248, 248, 248, 128]);
    let mut r = Reader::new(vec![0x00, 0xF8]);
    assert_eq!(convert_pixel(&mut r, 3).unwrap(), [248, 0, 0, 0]);
}

#[test]
fn pixel_rgb565_red() {
    let mut r = Reader::new(vec![0x00, 0xF8]);
    assert_eq!(convert_pixel(&mut r, 4).unwrap(), [248, 0, 0, 255]);
    let mut r = Reader::new(vec![0xE0, 0x07]);
    assert_eq!(convert_pixel(&mut r, 4).unwrap(), [0, 252, 0, 255]);
}

#[test]
fn pixel_la88() {
    let mut r = Reader::new(vec![0x40, 0x80]);
    assert_eq!(convert_pixel(&mut r, 6).unwrap(), [0x80, 0x80, 0x80, 0x40]);
}

#[test]
fn pixel_gray_subtype_10() {
    let mut r = Reader::new(vec![0x7F]);
    assert_eq!(convert_pixel(&mut r, 10).unwrap(), [127, 127, 127, 127]);
    assert_eq!(r.len(), 0);
}

#[test]
fn pixel_unknown_subtypes() {
    for t in [5u8, 7, 8, 9, 11] {
        let mut r = Reader::new(vec![1, 2, 3, 4]);
        match convert_pixel(&mut r, t) {
            Err(Error::UnknownPixel(m)) => assert_eq!(m, format!("Unknown pixel type ({}).", t)),
            _ => panic!("expected UnknownPixel"),
        }
        assert_eq!(r.len(), 4);
    }
}

#[test]
fn fix_header_inserts_zeros() {
    let raw: Vec<u8> = (1..=12).collect();
    assert_eq!(fix_header(&raw), vec![1, 2, 3, 4, 5, 6, 7, 8, 9, 0, 0, 0, 0, 10, 11, 12]);
}

#[test]
fn decompress_rejects_garbage() {
    let raw = vec![0xFFu8; 20];
    assert!(matches!(decompress(&raw), Err(Error::DecompressionError(_))));
}

#[test]
fn decompress_round_trip() {
    let stream = vec![5u8, 4, 3, 2, 1, 0, 9];
    let file = tex_file(&stream);
    assert_eq!(decompress(&file[26..]).unwrap(), stream);
}

#[test]
fn tex_too_short_fails() {
    let data = vec![0u8; 34];
    assert!(matches!(decode_tex(&data), Err(Error::DecompressionError(_))));
}

#[test]
fn tex_single_rgba_subimage() {
    let mut stream = vec![1u8, 0, 0, 0, 0, 0, 2, 0, 2, 0];
    stream.extend((1u8..=16).collect::<Vec<u8>>());
    let images = decode_tex(&tex_file(&stream)).unwrap().images;
    assert_eq!(images.len(), 1);
    assert_eq!((images[0].width, images[0].height), (2, 2));
    assert_eq!(images[0].pixels, vec![[1, 2, 3, 4], [5, 6, 7, 8], [9, 10, 11, 12], [13, 14, 15, 16]]);
}

#[test]
fn tex_rgb565_subimage() {
    let stream = vec![1u8, 0, 0, 0, 0, 4, 1, 0, 1, 0, 0x00, 0xF8];
    let images = decode_tex(&tex_file(&stream)).unwrap().images;
    assert_eq!(images.len(), 1);
    assert_eq!(images[0].pixels, vec![[248, 0, 0, 255]]);
}

#[test]
fn tex_unknown_subtype_skips_only_that_image() {
    let stream = vec![
        1u8, 0, 0, 0, 0, 5, 2, 0, 2, 0, // unknown subtype: abandoned
        24, 0, 0, 0, 0, 10, 1, 0, 1, 0, 0x7F, // one gray pixel
    ];
    let contents = parse_tex_stream(stream.clone());
    assert_eq!(contents.unknown_subtypes, vec![5]);
    let images = contents.images;
    assert_eq!(images.len(), 1);
    assert_eq!(images[0].pixels, vec![[127, 127, 127, 127]]);
    let images = decode_tex(&tex_file(&stream)).unwrap().images;
    assert_eq!(images.len(), 1);
}

#[test]
fn tex_skips_other_blocks() {
    let stream = vec![
        7u8, 3, 0, 0, 0, 0xAA, 0xBB, 0xCC, // skipped by its size
        1, 0, 0, 0, 0, 10, 1, 0, 1, 0, 0x11,
        1, 0, 0, 0, 0, 10, 1, 0, 1, 0, 0x22,
    ];
    let images = parse_tex_stream(stream).images;
    assert_eq!(images.len(), 2);
    assert_eq!(images[0].pixels, vec![[0x11; 4]]);
    assert_eq!(images[1].pixels, vec![[0x22; 4]]);
}

#[test]
fn tex_truncated_pixels_read_as_zero() {
    let stream = vec![1u8, 0, 0, 0, 0, 0, 2, 0, 1, 0, 1, 2, 3, 4, 5, 6];
    let images = parse_tex_stream(stream).images;
    assert_eq!(images[0].pixels, vec![[1, 2, 3, 4], [5, 6, 0, 0]]);
}

#[test]
fn adjust_pixels_undoes_blocks() {
    let stream: Vec<[u8; 4]> = (0u8..66).map(|i| [i; 4]).collect();
    let out = adjust_pixels(&stream, 2, 33);
    assert_eq!(out.len(), 66);
    assert_eq!(out[0], [0; 4]);
    assert_eq!(out[31], [31; 4]);
    assert_eq!(out[32], [64; 4]);
    assert_eq!(out[33], [32; 4]);
    assert_eq!(out[65], [65; 4]);
}

#[test]
fn tex_blocked_type_is_reordered() {
    let mut stream = vec![27u8, 0, 0, 0, 0, 10, 33, 0, 2, 0];
    stream.extend(0u8..66);
    let images = parse_tex_stream(stream).images;
    assert_eq!(images.len(), 1);
    assert_eq!(images[0].pixels[32], [64; 4]);
    assert_eq!(images[0].pixels[33], [32; 4]);
}

#[test]
fn orientation_same_winding_no_rotation() {
    let mut r = square_region();
    region_rotation(&mut r);
    assert_eq!(r.rotation, 0);
    assert_eq!(r.mirroring, 0);
}

#[test]
fn orientation_opposite_winding_mirrors() {
    let mut r = Region::new(
        0,
        pts(&[(0, 0), (10, 0), (10, 10), (0, 10)]),
        pts(&[(0, 0), (0, 20), (20, 20), (20, 0)]),
    );
    region_rotation(&mut r);
    assert_eq!(r.mirroring, 1);
    assert_eq!(r.shape_points, pts(&[(0, 0), (-10, 0), (-10, 10), (0, 10)]));
    assert!([0, 90, 180, 270].contains(&r.rotation));
}

#[test]
fn orientation_quarter_turn() {
    // Sheet point 1 lies below point 0 (sheet y grows downward), shape point 1 to the right.
    let mut r = Region::new(
        0,
        pts(&[(0, 0), (10, 0), (10, 10), (0, 10)]),
        pts(&[(0, 0), (0, 10), (-10, 10), (-10, 0)]),
    );
    region_rotation(&mut r);
    assert_eq!(r.mirroring, 0);
    assert_eq!(r.rotation, 90);
}

#[test]
fn layout_region_extent_and_zero_point() {
    let mut r = Region::new(
        0,
        pts(&[(-10, -10), (0, -10), (0, 0), (-10, 0)]),
        pts(&[(0, 0), (20, 0), (20, 20), (0, 20)]),
    );
    layout_region(&mut r);
    assert_eq!((r.left, r.right, r.bottom, r.top), (-10, 0, -10, 0));
    assert_eq!((r.sprite_width, r.sprite_height), (20, 20));
    assert_eq!((r.region_zero_x, r.region_zero_y), (20, 20));
}

#[test]
fn layout_region_without_points() {
    let mut r = Region::new(0, Vec::new(), Vec::new());
    layout_region(&mut r);
    assert_eq!((r.top, r.left, r.bottom, r.right), (-32767, 32767, 32767, -32767));
    assert_eq!((r.sprite_width, r.sprite_height, r.region_zero_x, r.region_zero_y), (0, 0, 0, 0));
    assert_eq!((r.rotation, r.mirroring), (0, 0));
}

#[test]
fn layout_canvas_encloses_all_regions() {
    let a = square_region();
    let b = Region::new(
        0,
        pts(&[(-10, -10), (0, -10), (0, 0), (-10, 0)]),
        pts(&[(0, 0), (20, 0), (20, 20), (0, 20)]),
    );
    let mut sprites = vec![SpriteItem::new(1, 1, vec![a]), SpriteItem::new(2, 1, vec![b])];
    let g = layout_sprites(&mut sprites);
    assert_eq!((g.global_zero_x, g.global_zero_y), (20, 20));
    assert_eq!((g.sprite_width, g.sprite_height), (42, 42));
    assert_eq!(sprites[0].regions[0].sprite_width, 20);
}

#[test]
fn layout_single_region_canvas() {
    let mut sprites = vec![SpriteItem::new(1, 1, vec![square_region()])];
    let g = layout_sprites(&mut sprites);
    assert_eq!((g.sprite_width, g.sprite_height, g.global_zero_x, g.global_zero_y), (22, 22, 0, 0));
}

fn push_u16(v: &mut Vec<u8>, x: u16) {
    v.extend_from_slice(&x.to_le_bytes());
}

fn push_i32(v: &mut Vec<u8>, x: i32) {
    v.extend_from_slice(&x.to_le_bytes());
}

/// A sprite file with one 100 × 100 sheet and one sprite of one square region.
fn sc_file() -> Vec<u8> {
    let mut d = Vec::new();
    for x in [1u16, 0, 1, 0, 0, 0] {
        push_u16(&mut d, x);
    }
    d.extend_from_slice(&[0; 5]);
    push_u16(&mut d, 1);
    push_u16(&mut d, 42);
    d.push(3);
    d.extend_from_slice(b"abc");
    d.push(0x01);
    push_i32(&mut d, 5);
    d.push(0);
    push_u16(&mut d, 100);
    push_u16(&mut d, 100);
    d.push(0x08);
    push_i32(&mut d, 24);
    d.extend_from_slice(&[0; 24]);
    d.push(0x12);
    push_i32(&mut d, 0);
    push_u16(&mut d, 7);
    push_u16(&mut d, 1);
    push_u16(&mut d, 0);
    d.push(0x16);
    push_i32(&mut d, 0);
    d.push(0);
    d.push(4);
    for (x, y) in [(0, 0), (10, 0), (10, 10), (0, 10)] {
        push_i32(&mut d, x);
        push_i32(&mut d, y);
    }
    for (x, y) in [(0u16, 0u16), (65535, 0), (65535, 32768), (0, 32768)] {
        push_u16(&mut d, x);
        push_u16(&mut d, y);
    }
    d.extend_from_slice(&[0; 5]);
    d.push(0x2A);
    push_i32(&mut d, 2);
    d.extend_from_slice(&[1, 2]);
    d
}

#[test]
fn sc_texture_count_reads_header() {
    assert_eq!(sc_texture_count(&sc_file()), 1);
}

#[test]
fn sc_parse_full_resolution() {
    let f = parse_sc(&sc_file(), &vec![(100, 100)]).unwrap();
    assert_eq!(f.shape_count, 1);
    assert!(!f.use_low_res);
    assert_eq!((f.sheets[0].x, f.sheets[0].y, f.sheets[0].divider), (100, 100, 1));
    assert_eq!(f.sprites[0].id, 7);
    let r = &f.sprites[0].regions[0];
    assert_eq!(r.num_points, 4);
    assert_eq!(r.shape_points.len(), 4);
    assert_eq!(r.sheet_points.len(), 4);
    assert_eq!(r.shape_points, pts(&[(0, 0), (10, 0), (10, 10), (0, 10)]));
    assert_eq!(r.sheet_points, pts(&[(0, 0), (100, 0), (100, 50), (0, 50)]));
    assert_eq!((r.top, r.left, r.bottom, r.right), (-32767, 32767, 32767, -32767));
}

#[test]
fn sc_parse_low_res_halves_sheet_points() {
    let f = parse_sc(&sc_file(), &vec![(50, 50)]).unwrap();
    assert!(f.use_low_res);
    assert_eq!(f.sheets[0].divider, 2);
    assert_eq!(f.sprites[0].regions[0].sheet_points, pts(&[(0, 0), (50, 0), (50, 25), (0, 25)]));
}

#[test]
fn sc_parse_one_dimension_matching_is_not_low_res() {
    let f = parse_sc(&sc_file(), &vec![(100, 50)]).unwrap();
    assert!(!f.use_low_res);
    assert_eq!(f.sprites[0].regions[0].sheet_points[2], Point::new(100, 50));
}

#[test]
fn sc_parse_too_many_textures_fails() {
    let f = parse_sc(&sc_file(), &Vec::new());
    assert!(matches!(f, Err(Error::Other(_))));
}

#[test]
fn sc_parse_unknown_sheet_fails() {
    let mut d = sc_file();
    // The region's sheet id sits after the sprite header and the region tag and size.
    let at = d.iter().position(|&b| b == 0x16).unwrap() + 5;
    d[at] = 3;
    assert!(matches!(parse_sc(&d, &vec![(100, 100)]), Err(Error::Other(_))));
}

#[test]
fn scale_coord_rounds_then_divides() {
    assert_eq!(scale_coord(65535, 100, 1), 100);
    assert_eq!(scale_coord(32768, 100, 1), 50);
    assert_eq!(scale_coord(32768, 100, 2), 25);
    assert_eq!(scale_coord(655, 100, 1), 1);
}

#[test]
fn bbox_of_empty_mask() {
    assert_eq!(get_bbox(&vec![0; 6], 3, 2), (0, 0, 0, 0));
}

#[test]
fn bbox_is_half_open() {
    let mask = vec![0, 0, 0, 0, 0, 255, 255, 0, 0, 255, 0, 0];
    assert_eq!(get_bbox(&mask, 4, 3), (1, 1, 3, 3));
}

fn solid(w: u32, h: u32, p: [u8; 4]) -> Raster {
    Raster { width: w, height: h, pixels: vec![p; (w * h) as usize] }
}

#[test]
fn crop_clamps_to_image() {
    let img = Raster { width: 3, height: 2, pixels: (0u8..6).map(|i| [i; 4]).collect() };
    let c = crop(&img, 1, 1, 5, 5);
    assert_eq!((c.width, c.height), (2, 1));
    assert_eq!(c.pixels, vec![[4; 4], [5; 4]]);
}

#[test]
fn flip_mirrors_rows() {
    let mut img = Raster { width: 3, height: 1, pixels: vec![[1; 4], [2; 4], [3; 4]] };
    flip_horizontal(&mut img);
    assert_eq!(img.pixels, vec![[3; 4], [2; 4], [1; 4]]);
}

#[test]
fn copy_from_refuses_overflow() {
    let mut canvas = solid(2, 2, [0; 4]);
    assert!(!copy_from(&mut canvas, &solid(2, 1, [9; 4]), 1, 0));
    assert_eq!(canvas.pixels, vec![[0; 4]; 4]);
    assert!(copy_from(&mut canvas, &solid(1, 1, [9; 4]), 1, 1));
    assert_eq!(canvas.pixels, vec![[0; 4], [0; 4], [0; 4], [9; 4]]);
}

#[test]
fn masked_overlay_blends_where_mask_is_set() {
    let mut bottom = solid(2, 1, [0; 4]);
    let top = solid(2, 1, [255, 0, 255, 255]);
    masked_overlay(&mut bottom, &top, 0, 0, &vec![255, 0]);
    assert_eq!(bottom.pixels, vec![[255, 0, 255, 255], [0; 4]]);
}

#[test]
fn region_piece_cuts_square() {
    let sheet_img = solid(4, 4, [255, 0, 255, 255]);
    let sheet = SheetItem::new(4, 4, 1);
    let r = Region::new(0, pts(&[(0, 0), (3, 0), (3, 3), (0, 3)]), pts(&[(0, 0), (3, 0), (3, 3), (0, 3)]));
    let p = region_piece(&sheet_img, &sheet, &r).unwrap();
    assert_eq!((p.width, p.height), (4, 4));
    assert!(p.pixels.iter().all(|&q| q == [255, 0, 255, 255]));
}

#[test]
fn region_piece_skips_closed_polygon() {
    let sheet_img = solid(4, 4, [255; 4]);
    let sheet = SheetItem::new(4, 4, 1);
    let r = Region::new(0, pts(&[(0, 0), (3, 0), (0, 0)]), pts(&[(0, 0), (3, 0), (0, 0)]));
    assert!(region_piece(&sheet_img, &sheet, &r).is_none());
    let empty = Region::new(0, Vec::new(), Vec::new());
    assert!(region_piece(&sheet_img, &sheet, &empty).is_none());
}

#[test]
fn paste_region_places_pivot() {
    let g = SpriteGlobal::new(3, 3, 2, 2);
    let mut r = square_region();
    r.region_zero_x = 1;
    r.region_zero_y = 1;
    let mut canvas = new_canvas(&g).unwrap();
    assert!(paste_region(&mut canvas, &g, &r, &solid(1, 1, [7; 4])));
    assert_eq!(canvas.pixels[1 * 3 + 1], [7; 4]);
    r.region_zero_x = 3;
    assert!(!paste_region(&mut canvas, &g, &r, &solid(1, 1, [8; 4])));
}

#[test]
fn rotation_is_needed_off_zero() {
    assert!(!needs_rotation(0));
    assert!(!needs_rotation(360));
    assert!(needs_rotation(90));
    assert!(needs_rotation(270));
}

#[test]
fn sprite_names_pad_to_count_width() {
    assert_eq!(index_width(5), 1);
    assert_eq!(sprite_file_name("hero", 0, 5), "hero_sprite_0.png");
    assert_eq!(sprite_file_name("hero", 4, 5), "hero_sprite_4.png");
    assert_eq!(index_width(100), 3);
    assert_eq!(sprite_file_name("hero", 0, 100), "hero_sprite_000.png");
    assert_eq!(sprite_file_name("hero", 42, 100), "hero_sprite_042.png");
    assert_eq!(index_width(0), 1);
}

#[test]
fn texture_and_sheet_names() {
    assert_eq!(tex_file_name("ui_tex", 0), "ui_tex.png");
    assert_eq!(tex_file_name("ui_tex", 2), "ui_tex__.png");
    assert_eq!(sheet_file_name("ui", 0), "ui_tex.png");
    assert_eq!(sheet_file_name("ui", 1), "ui_tex_.png");
}

#[test]
fn tex_decoding_twice_is_identical() {
    let mut stream = vec![1u8, 0, 0, 0, 0, 2, 2, 0, 1, 0, 0x34, 0x12, 0x78, 0x56];
    stream.extend_from_slice(&[28, 0, 0, 0, 0, 0, 1, 0, 1, 0, 9, 8, 7, 6]);
    let file = tex_file(&stream);
    let a = decode_tex(&file).unwrap().images;
    let b = decode_tex(&file).unwrap().images;
    assert_eq!(a.len(), 2);
    for (x, y) in a.iter().zip(b.iter()) {
        assert_eq!((x.width, x.height), (y.width, y.height));
        assert_eq!(x.pixels, y.pixels);
    }
}

#[test]
fn sc_parsing_and_cutting_twice_is_identical() {
    let data = sc_file();
    let mut f1 = parse_sc(&data, &vec![(100, 100)]).unwrap();
    let mut f2 = parse_sc(&data, &vec![(100, 100)]).unwrap();
    let g1 = layout_sprites(&mut f1.sprites);
    let g2 = layout_sprites(&mut f2.sprites);
    assert_eq!((g1.sprite_width, g1.sprite_height), (g2.sprite_width, g2.sprite_height));
    let sheet_img = solid(100, 100, [0, 255, 0, 255]);
    let p1 = region_piece(&sheet_img, &f1.sheets[0], &f1.sprites[0].regions[0]).unwrap();
    let p2 = region_piece(&sheet_img, &f2.sheets[0], &f2.sprites[0].regions[0]).unwrap();
    assert_eq!((p1.width, p1.height), (p2.width, p2.height));
    assert_eq!(p1.pixels, p2.pixels);
}

#[test]
fn orientation_always_in_range() {
    let shapes = [
        [(0, 0), (10, 0), (10, 10), (0, 10)],
        [(0, 0), (0, 10), (10, 10), (10, 0)],
        [(5, 5), (-5, 5), (-5, -5), (5, -5)],
        [(0, 0), (3, 7), (-2, 9), (-4, 1)],
    ];
    for shape in shapes.iter() {
        for sheet in shapes.iter() {
            let mut r = Region::new(0, pts(shape), pts(sheet));
            layout_region(&mut r);
            assert!([0, 90, 180, 270].contains(&r.rotation));
            assert!(r.mirroring == 0 || r.mirroring == 1);
            assert_eq!(r.shape_points.len(), r.num_points as usize);
            assert_eq!(r.sheet_points.len(), r.num_points as usize);
        }
    }
}

#[test]
fn layout_region_rotated_extent_swaps() {
    let mut r = Region::new(
        0,
        pts(&[(0, 0), (10, 0), (10, 10), (0, 10)]),
        pts(&[(0, 0), (0, 10), (-30, 10), (-30, 0)]),
    );
    layout_region(&mut r);
    assert_eq!(r.rotation, 90);
    assert_eq!((r.sprite_width, r.sprite_height), (10, 30));
}

#[test]
fn layout_region_sheet_beyond_32676() {
    let mut r = Region::new(0, pts(&[(0, 0), (0, 10)]), pts(&[(40000, 0), (40000, 10)]));
    layout_region(&mut r);
    assert_eq!(r.rotation, 180);
    assert_eq!((r.sprite_width, r.sprite_height), (0, 10));
    let mut r = Region::new(0, pts(&[(0, 0), (10, 0), (10, 10)]), pts(&[(40000, 40000), (40020, 40000), (40020, 40030)]));
    layout_region(&mut r);
    assert_eq!((r.sprite_width, r.sprite_height), (20, 30));
}

#[test]
fn compose_sprite_pastes_in_order() {
    let g = SpriteGlobal::new(3, 2, 1, 0);
    let mut canvas = new_canvas(&g).unwrap();
    let mut a = square_region();
    a.region_zero_x = 1;
    let mut b = square_region();
    b.region_zero_x = 0;
    let c = square_region();
    let regions = vec![a, b, c];
    let pieces = vec![Some(solid(2, 1, [1; 4])), Some(solid(2, 1, [2; 4])), None];
    let pasted = compose_sprite(&mut canvas, &g, &regions, &pieces);
    assert_eq!(pasted, vec![true, true, false]);
    assert_eq!(canvas.pixels, vec![[1; 4], [2; 4], [2; 4], [0; 4], [0; 4], [0; 4]]);
    let too_wide = vec![Some(solid(4, 1, [3; 4]))];
    let pasted = compose_sprite(&mut canvas, &g, &regions[..1].iter().map(|_| square_region()).collect(), &too_wide);
    assert_eq!(pasted, vec![false]);
    assert_eq!(canvas.pixels[0], [1; 4]);
}
