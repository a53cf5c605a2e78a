//! The zlib envelope: a two-byte header before the DEFLATE stream and a big-endian Adler-32
//! trailer after it.
use vstd::prelude::*;

verus! {

/// CMF: deflate with a 32 KiB window.
pub const ZLIB_CMF: u8 = 0x78;

/// FLG for the default compression level, no preset dictionary, with the header check bits.
pub const ZLIB_FLG_DEFAULT: u8 = 0x9C;

/// The header bytes.
pub open spec fn zlib_header() -> Seq<u8> {
    seq![0x78u8, 0x9Cu8]
}

/// The four bytes of `x`, most significant first.
pub open spec fn be32(x: u32) -> Seq<u8> {
    seq![
        (x / 0x1000000) as u8,
        (x / 0x10000 % 0x100) as u8,
        (x / 0x100 % 0x100) as u8,
        (x % 0x100) as u8,
    ]
}

/// Appends the zlib header.
pub fn write_zlib_header(out: &mut Vec<u8>)
    ensures
        final(out)@ == old(out)@ + zlib_header(),
        (ZLIB_CMF as int * 256 + ZLIB_FLG_DEFAULT as int) % 31 == 0,
{
    out.push(ZLIB_CMF);
    out.push(ZLIB_FLG_DEFAULT);
    assert(final(out)@ =~= old(out)@ + zlib_header());
}

/// Appends `x` big-endian.
pub fn write_u32_be(out: &mut Vec<u8>, x: u32)
    ensures
        final(out)@ == old(out)@ + be32(x),
{
    out.push((x / 0x1000000) as u8);
    out.push((x / 0x10000 % 0x100) as u8);
    out.push((x / 0x100 % 0x100) as u8);
    out.push((x % 0x100) as u8);
    assert(final(out)@ =~= old(out)@ + be32(x));
}

} // verus!
