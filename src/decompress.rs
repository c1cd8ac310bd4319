use vstd::prelude::*;
use crate::error::Error;

verus! {

/// What `lzma_rs::lzma_decompress` makes of a complete LZMA stream:
/// the decompressed bytes, or `None` where it rejects the stream.
pub uninterp spec fn lzma_output(input: Seq<u8>) -> Option<Seq<u8>>;

/// Relies on `lzma_rs::lzma_decompress`: decompresses a whole LZMA stream
/// (13-byte header, then the range-coded data) held in memory; the outcome
/// depends on the input bytes alone.
#[verifier::external_body]
fn lzma_decompress_bytes(input: &[u8]) -> (r: Option<Vec<u8>>)
    ensures
        r matches Some(v) ==> lzma_output(input@) == Some(v@),
        r is None ==> lzma_output(input@) is None,
{
    let mut out: Vec<u8> = Vec::new();
    match lzma_rs::lzma_decompress(&mut &input[..], &mut out) {
        Ok(_) => Some(out),
        Err(_) => None,
    }
}

/// The game's abbreviated LZMA header made whole: four zero bytes (the high
/// half of the uncompressed size) inserted after the ninth byte.
pub open spec fn with_full_header(raw: Seq<u8>) -> Seq<u8>
    recommends
        raw.len() >= 9,
{
    raw.subrange(0, 9) + seq![0u8, 0u8, 0u8, 0u8] + raw.subrange(9, raw.len() as int)
}

/// Inserts four zero bytes at offset 9 of `raw_data`.
pub fn fix_header(raw_data: &[u8]) -> (r: Vec<u8>)
    requires
        raw_data@.len() >= 9,
    ensures
        r@ == with_full_header(raw_data@),
{
    let mut data: Vec<u8> = Vec::new();
    let mut i: usize = 0;
    while i < 9
        invariant
            i <= 9,
            raw_data@.len() >= 9,
            data@ == raw_data@.subrange(0, i as int),
        decreases 9 - i,
    {
        data.push(raw_data[i]);
        i = i + 1;
        assert(data@ =~= raw_data@.subrange(0, i as int));
    }
    let mut z: usize = 0;
    while z < 4
        invariant
            z <= 4,
            raw_data@.len() >= 9,
            data@ == raw_data@.subrange(0, 9) + Seq::new(z as nat, |k: int| 0u8),
        decreases 4 - z,
    {
        data.push(0u8);
        z = z + 1;
        assert(data@ =~= raw_data@.subrange(0, 9) + Seq::new(z as nat, |k: int| 0u8));
    }
    while i < raw_data.len()
        invariant
            9 <= i <= raw_data@.len(),
            data@ == raw_data@.subrange(0, 9) + seq![0u8, 0u8, 0u8, 0u8] + raw_data@.subrange(
                9,
                i as int,
            ),
        decreases raw_data@.len() - i,
    {
        data.push(raw_data[i]);
        i = i + 1;
        assert(data@ =~= raw_data@.subrange(0, 9) + seq![0u8, 0u8, 0u8, 0u8] + raw_data@.subrange(
            9,
            i as int,
        ));
    }
    assert(Seq::new(4, |k: int| 0u8) =~= seq![0u8, 0u8, 0u8, 0u8]);
    data
}

/// Decompresses `_tex.sc` or `.csv` data.
///
/// Before LZMA decompression, four zero bytes are inserted after the ninth
/// byte. Where the LZMA decoder rejects the result, `DecompressionError` is
/// returned.
pub fn decompress(raw_data: &[u8]) -> (r: Result<Vec<u8>, Error>)
    requires
        raw_data@.len() >= 9,
    ensures
        r matches Ok(v) ==> lzma_output(with_full_header(raw_data@)) == Some(v@),
        r is Err <==> lzma_output(with_full_header(raw_data@)) is None,
        r matches Err(e) ==> e is DecompressionError,
{
    let data = fix_header(raw_data);
    match lzma_decompress_bytes(data.as_slice()) {
        Some(v) => Ok(v),
        None => Err(Error::DecompressionError(String::from_str("Failed to decompress file"))),
    }
}

} // verus!
