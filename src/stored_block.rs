//! Stored (uncompressed) DEFLATE blocks.
use vstd::prelude::*;
use crate::bitstream::BitWriter;

verus! {

/// The largest payload of one stored block.
pub const MAX_STORED_BLOCK_LENGTH: usize = 65535;

/// The five framing bytes of a stored block: the header byte (BFINAL, BTYPE = 00, padding),
/// then LEN and NLEN, both little-endian.
pub open spec fn stored_header(len: nat, last: bool) -> Seq<u8> {
    let nlen = 65535 - len;
    seq![
        if last { 1u8 } else { 0u8 },
        (len % 256) as u8,
        (len / 256) as u8,
        (nlen % 256) as u8,
        (nlen / 256) as u8,
    ]
}

/// The byte-aligned stored-block encoding of `s`, split into chunks of at most 65535 bytes,
/// the last of which carries BFINAL.
pub open spec fn stored_stream(s: Seq<u8>) -> Seq<u8>
    decreases s.len(),
{
    if s.len() <= 65535 {
        stored_header(s.len(), true) + s
    } else {
        stored_header(65535, false) + s.take(65535) + stored_stream(s.skip(65535))
    }
}

/// The stored stream of `s[start..]`, as the loop below builds it.
spec fn stored_from(s: Seq<u8>, start: int) -> Seq<u8> {
    stored_stream(s.subrange(start, s.len() as int))
}

/// Writes `input` as a sequence of stored blocks; the writer must be at a byte boundary.
pub fn compress_block_stored(input: &[u8], writer: &mut BitWriter)
    requires
        old(writer).wf(),
        old(writer).pending() == 0,
    ensures
        final(writer).wf(),
        final(writer).pending() == 0,
        final(writer).out@ == old(writer).out@ + stored_stream(input@),
{
    let mut start: usize = 0;
    assert(input@.subrange(0, input@.len() as int) =~= input@);
    loop
        invariant
            start <= input@.len(),
            writer.wf(),
            writer.pending() == 0,
            old(writer).out@ + stored_stream(input@) == writer.out@ + stored_from(input@, start as int),
        decreases input@.len() - start,
    {
        let remaining = input.len() - start;
        let last = remaining <= MAX_STORED_BLOCK_LENGTH;
        let len: usize = if last { remaining } else { MAX_STORED_BLOCK_LENGTH };
        let nlen: usize = MAX_STORED_BLOCK_LENGTH - len;
        let header: [u8; 5] = [
            if last { 1u8 } else { 0u8 },
            (len % 256) as u8,
            (len / 256) as u8,
            (nlen % 256) as u8,
            (nlen / 256) as u8,
        ];
        let ghost rest = input@.subrange(start as int, input@.len() as int);
        let ghost before = writer.out@;
        writer.write_bytes(&header, 0, 5);
        assert(header@.subrange(0, 5) =~= stored_header(len as nat, last));
        writer.write_bytes(input, start, start + len);
        if last {
            assert(rest =~= input@.subrange(start as int, (start + len) as int));
            assert(writer.out@ =~= before + stored_from(input@, start as int));
            return;
        }
        assert(rest.take(65535) =~= input@.subrange(start as int, (start + len) as int));
        assert(rest.skip(65535) =~= input@.subrange((start + len) as int, input@.len() as int));
        assert(stored_from(input@, start as int) == stored_header(65535, false) + rest.take(65535)
            + stored_from(input@, (start + len) as int));
        assert(writer.out@ + stored_from(input@, (start + len) as int) =~= before + stored_from(
            input@,
            start as int,
        ));
        start = start + len;
    }
}

/// Encodes `input` as a complete DEFLATE stream of stored blocks.
pub fn compress_data_stored(input: &[u8]) -> (r: Vec<u8>)
    ensures
        r@ == stored_stream(input@),
{
    let mut writer = BitWriter::new();
    compress_block_stored(input, &mut writer);
    assert(writer.out@ =~= stored_stream(input@));
    writer.out
}

/// What a decoder reads from a sequence of stored blocks: each block's header byte (BFINAL,
/// BTYPE = 00), LEN, NLEN, which must be the complement of LEN, and LEN payload bytes; the
/// stream ends right after the block with BFINAL set. `None` where the bytes are not such a
/// stream.
pub open spec fn parse_stored(bytes: Seq<u8>) -> Option<Seq<u8>>
    decreases bytes.len(),
{
    if bytes.len() < 5 {
        None
    } else {
        let len = bytes[1] as int + 256 * bytes[2] as int;
        let nlen = bytes[3] as int + 256 * bytes[4] as int;
        if nlen != 65535 - len || bytes.len() < 5 + len || (bytes[0] != 0 && bytes[0] != 1) {
            None
        } else if bytes[0] == 1 {
            if bytes.len() == 5 + len {
                Some(bytes.subrange(5, 5 + len))
            } else {
                None
            }
        } else {
            match parse_stored(bytes.skip(5 + len)) {
                Some(rest) => Some(bytes.subrange(5, 5 + len) + rest),
                None => None,
            }
        }
    }
}

/// Stored framing round-trips: reading the stored blocks of `s` back yields `s`, with BFINAL on
/// the last block only, each LEN matching its payload and each NLEN its complement.
pub proof fn lemma_stored_round_trip(s: Seq<u8>)
    ensures
        parse_stored(stored_stream(s)) == Some(s),
    decreases s.len(),
{
    let out = stored_stream(s);
    if s.len() <= 65535 {
        let len = s.len() as int;
        assert(out == stored_header(s.len(), true) + s);
        assert(out[1] as int + 256 * out[2] as int == len);
        assert(out[3] as int + 256 * out[4] as int == 65535 - len);
        assert(out.subrange(5, 5 + len) =~= s);
    } else {
        let rest = s.skip(65535);
        lemma_stored_round_trip(rest);
        assert(out == stored_header(65535, false) + s.take(65535) + stored_stream(rest));
        assert(out[1] as int + 256 * out[2] as int == 65535);
        assert(out[3] as int + 256 * out[4] as int == 0);
        assert(out.skip(65540int) =~= stored_stream(rest));
        assert(out.subrange(5int, 65540int) =~= s.take(65535));
        assert(s.take(65535) + rest =~= s);
    }
}

} // verus!
