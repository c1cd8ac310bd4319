use vstd::prelude::*;
use crate::error::Error;
use crate::reader::{Reader, take_padded, rest_after, le_u16, first_byte};
use crate::names::{unknown_pixel_message, unknown_pixel_text};

verus! {

/// Whether the codec knows pixel subtype `t`.
pub open spec fn is_known_pixel(t: u8) -> bool {
    t == 0 || t == 1 || t == 2 || t == 3 || t == 4 || t == 6 || t == 10
}

/// How many bytes one pixel of subtype `t` takes in the stream.
pub open spec fn pixel_size(t: u8) -> nat {
    if t == 0 || t == 1 {
        4
    } else if t == 10 {
        1
    } else if is_known_pixel(t) {
        2
    } else {
        0
    }
}

/// The channels (R, G, B, A) of a 16-bit pixel of subtype 2, 3, 4 or 6.
pub open spec fn channels16(t: u8, p: u16) -> Seq<u8> {
    if t == 2 {
        seq![
            (((p >> 12u16) & 0xFu16) << 4u16) as u8,
            (((p >> 8u16) & 0xFu16) << 4u16) as u8,
            (((p >> 4u16) & 0xFu16) << 4u16) as u8,
            ((p & 0xFu16) << 4u16) as u8,
        ]
    } else if t == 3 {
        seq![
            (((p >> 11u16) & 0x1Fu16) << 3u16) as u8,
            (((p >> 6u16) & 0x1Fu16) << 3u16) as u8,
            (((p >> 1u16) & 0x1Fu16) << 3u16) as u8,
            ((p & 0xFFu16) << 7u16) as u8,
        ]
    } else if t == 4 {
        seq![
            (((p >> 11u16) & 0x1Fu16) << 3u16) as u8,
            (((p >> 5u16) & 0x3Fu16) << 2u16) as u8,
            ((p & 0x1Fu16) << 3u16) as u8,
            255u8,
        ]
    } else {
        seq![(p >> 8u16) as u8, (p >> 8u16) as u8, (p >> 8u16) as u8, (p & 0xFFu16) as u8]
    }
}

/// The RGBA value that a pixel of known subtype `t` at the front of `s` decodes to.
pub open spec fn decode_pixel(t: u8, s: Seq<u8>) -> Seq<u8> {
    if t == 0 || t == 1 {
        take_padded(s, 4)
    } else if t == 10 {
        seq![first_byte(s), first_byte(s), first_byte(s), first_byte(s)]
    } else {
        channels16(t, le_u16(s))
    }
}

/// Reads one pixel of subtype `pixel_type` from the stream and returns it as
/// RGBA.
///
/// Subtypes 0 and 1 are RGBA8888, 2 is RGBA4444, 3 is RGBA5551, 4 is RGB565,
/// 6 is LA88 and 10 is an 8-bit gray level used for every channel. Any other
/// subtype is refused with `UnknownPixel`, and nothing is read.
pub fn convert_pixel(reader: &mut Reader, pixel_type: u8) -> (r: Result<[u8; 4], Error>)
    ensures
        is_known_pixel(pixel_type) <==> r is Ok,
        r matches Ok(p) ==> p@ == decode_pixel(pixel_type, old(reader)@),
        r is Ok ==> final(reader)@ == rest_after(old(reader)@, pixel_size(pixel_type)),
        r matches Err(e) ==> e is UnknownPixel && final(reader)@ == old(reader)@,
        r matches Err(Error::UnknownPixel(m)) ==> m@ == unknown_pixel_text(pixel_type),
{
    if pixel_type == 0 || pixel_type == 1 {
        let pixel = reader.read(4);
        let r = [pixel[0], pixel[1], pixel[2], pixel[3]];
        assert(r@ =~= decode_pixel(pixel_type, old(reader)@));
        Ok(r)
    } else if pixel_type == 2 || pixel_type == 3 || pixel_type == 4 || pixel_type == 6 {
        let p = reader.read_uint16();
        let r = if pixel_type == 2 {
            [
                (((p >> 12u16) & 0xFu16) << 4u16) as u8,
                (((p >> 8u16) & 0xFu16) << 4u16) as u8,
                (((p >> 4u16) & 0xFu16) << 4u16) as u8,
                ((p & 0xFu16) << 4u16) as u8,
            ]
        } else if pixel_type == 3 {
            [
                (((p >> 11u16) & 0x1Fu16) << 3u16) as u8,
                (((p >> 6u16) & 0x1Fu16) << 3u16) as u8,
                (((p >> 1u16) & 0x1Fu16) << 3u16) as u8,
                ((p & 0xFFu16) << 7u16) as u8,
            ]
        } else if pixel_type == 4 {
            // Alpha channel is always opaque for this subtype.
            [
                (((p >> 11u16) & 0x1Fu16) << 3u16) as u8,
                (((p >> 5u16) & 0x3Fu16) << 2u16) as u8,
                ((p & 0x1Fu16) << 3u16) as u8,
                255u8,
            ]
        } else {
            [(p >> 8u16) as u8, (p >> 8u16) as u8, (p >> 8u16) as u8, (p & 0xFFu16) as u8]
        };
        assert(r@ =~= decode_pixel(pixel_type, old(reader)@));
        Ok(r)
    } else if pixel_type == 10 {
        let p = reader.read_byte();
        let r = [p, p, p, p];
        assert(r@ =~= decode_pixel(pixel_type, old(reader)@));
        Ok(r)
    } else {
        Err(Error::UnknownPixel(unknown_pixel_message(pixel_type)))
    }
}

} // verus!
