//! A DEFLATE encoder over in-memory byte slices, with an optional zlib envelope.
use vstd::prelude::*;

pub mod bitstream;
pub mod stored_block;
pub mod length_encode;
pub mod lz77;
pub mod huffman_table;
pub mod prefix_free;
pub mod length_limit;
pub mod encoder_state;
pub mod huffman_lengths;
pub mod checksum;
pub mod zlib;

verus! {

use crate::bitstream::{BitWriter, bytes_bits, zeros};
use crate::checksum::{adler32_checksum, adler32_of};
use crate::encoder_state::{
    EncoderState, pair_in_tables, CodedBlock, coded_block_bits, block_ok, block_header_bits,
    pairs_bits, is_fixed_code, dynamic_header_ok, blocks_bits, blocks_recs, coded_stream,
    deflate_stream_ok, fixed_stream_ok, dynamic_stream_ok, two_codes, complete_code,
    complete_or_single, lemma_pairs_bits_append, blocks_parse, pack, fixed_block_bits,
    lemma_pairs_bits_canonical, fixed_lit_seq, fixed_dist_seq, lemma_pack_unique,
};
use crate::huffman_lengths::{
    DynamicHeader, remove_trailing_zeroes, MIN_NUM_LITERALS_AND_LENGTHS, MIN_NUM_DISTANCES,
};
use crate::huffman_table::{HuffmanTable, MAX_CODE_LENGTH, fixed_tables, valid_lengths};
use crate::length_limit::huffman_lengths_from_frequency;
use crate::lz77::{
    LDPair, LZ77State, DynamicWriter, lz77_compress_block, lit_symbol, MAX_BLOCK_RECORDS, expand,
    refs_fit, lemma_expand_append, lemma_expand_push, parse_from, greedy_parse,
};
use crate::length_encode::dist_index;
use crate::stored_block::{compress_data_stored, stored_stream};
use crate::zlib::{write_zlib_header, write_u32_be, zlib_header, be32};

/// The kind of block used for an input of a given length.
#[derive(Clone, Copy, Debug, PartialEq, Eq, Structural)]
pub enum BType {
    NoCompression,
    FixedHuffman,
    DynamicHuffman,
}

/// Short inputs are stored, medium ones use the fixed code, long ones dynamic codes.
pub fn block_type_for_length(length: usize) -> (r: BType)
    ensures
        length < 20 ==> r == BType::NoCompression,
        20 <= length < 70 ==> r == BType::FixedHuffman,
        70 <= length ==> r == BType::DynamicHuffman,
{
    if length < 20 {
        BType::NoCompression
    } else if length < 70 {
        BType::FixedHuffman
    } else {
        BType::DynamicHuffman
    }
}

/// Gives at least two distance symbols a non-zero count: where one distance symbol is used, it
/// is paired with one unused symbol, and where none is, symbols 0 and 1 are taken, so that
/// the distance code then has exactly two codes, both of length one.
fn ensure_two_distance_codes(freqs: &mut Vec<u32>)
    requires
        1 <= old(freqs)@.len() <= 30,
        forall|i: int| 0 <= i < old(freqs)@.len() ==> #[trigger] old(freqs)@[i] <= MAX_BLOCK_RECORDS + 1,
    ensures
        2 <= final(freqs)@.len() <= 30,
        old(freqs)@.len() <= final(freqs)@.len(),
        forall|i: int| 0 <= i < old(freqs)@.len() ==> (#[trigger] old(freqs)@[i] > 0 ==> final(freqs)@[i] > 0),
        exists|i: int, j: int| 0 <= i < j < final(freqs)@.len() && final(freqs)@[i] > 0 && final(freqs)@[j] > 0,
{
    let mut used: usize = 0;
    let mut first: usize = 0;
    let mut second: usize = 0;
    let mut i: usize = 0;
    while i < freqs.len()
        invariant
            i <= freqs@.len(),
            used <= 2,
            used >= 1 ==> first < i && freqs@[first as int] > 0,
            used >= 2 ==> first < second < i && freqs@[second as int] > 0,
        decreases freqs@.len() - i,
    {
        if freqs[i] > 0 {
            if used == 0 {
                first = i;
                used = 1;
            } else if used == 1 {
                second = i;
                used = 2;
            }
        }
        i = i + 1;
    }
    if used >= 2 {
        assert(freqs@[first as int] > 0 && freqs@[second as int] > 0);
        return;
    }
    if freqs.len() < 2 {
        freqs.push(0);
    }
    if used == 1 {
        let other: usize = if first == 0 { 1 } else { 0 };
        freqs.set(other, 1);
        assert(freqs@[first as int] > 0 && freqs@[other as int] > 0);
        if first < other {
            assert(0 <= first < other < freqs@.len());
        } else {
            assert(0 <= other < first < freqs@.len());
        }
        return;
    }
    freqs.set(0, 1);
    freqs.set(1, 1);
    assert(freqs@[0] > 0 && freqs@[1] > 0);
}

/// The records of one block: some records, then the one end-of-block record.
pub open spec fn block_recs_ok(recs: Seq<LDPair>) -> bool {
    &&& recs.len() > 0
    &&& recs.last() == LDPair::EndOfBlock
    &&& forall|j: int| 0 <= j < recs.len() - 1 ==> !(#[trigger] recs[j] is EndOfBlock)
}

/// Writes the buffered records as one block with dynamic codes built from their counts.
fn write_dynamic_block(enc: &mut EncoderState, dw: &DynamicWriter, last: bool)
    requires
        old(enc).wf(),
        dw.wf(),
        block_recs_ok(dw.buffer@),
    ensures
        final(enc).wf(),
        exists|b: CodedBlock|
            block_ok(b) && !b.fixed && b.recs == dw.buffer@ && b.last == last && #[trigger] coded_block_bits(b)
                == final(enc).writer.bits().skip(old(enc).writer.bits().len() as int)
                && final(enc).writer.bits() == old(enc).writer.bits() + coded_block_bits(b),
{
    let lf = remove_trailing_zeroes(&dw.lit_freq, MIN_NUM_LITERALS_AND_LENGTHS);
    let mut df = remove_trailing_zeroes(&dw.dist_freq, MIN_NUM_DISTANCES);
    let ghost df0 = df@;
    ensure_two_distance_codes(&mut df);
    proof {
        vstd::arithmetic::power2::lemma2_to64();
    }
    let ll = huffman_lengths_from_frequency(&lf, MAX_CODE_LENGTH as u8);
    let dl = huffman_lengths_from_frequency(&df, MAX_CODE_LENGTH as u8);
    let header = DynamicHeader::prepare(&ll, &dl);
    let ghost lls = ll@;
    let ghost dls = dl@;
    let lt = HuffmanTable::from_lengths(ll);
    let dt = HuffmanTable::from_lengths(dl);
    match (header, lt, dt) {
        (Some(h), Some(lt), Some(dt)) => {
            let ghost w0 = enc.writer.bits();
            enc.lit_table = lt;
            enc.dist_table = dt;
            enc.write_start_of_block(false, last);
            h.write(&mut enc.writer);
            assert forall|j: int| 0 <= j < dw.buffer@.len() implies pair_in_tables(
                enc.lit_table,
                enc.dist_table,
                #[trigger] dw.buffer@[j],
            ) by {
                let p = dw.buffer@[j];
                assert(dw.counted(p));
                let s = lit_symbol(p);
                if s >= lf@.len() {
                    assert(dw.lit_freq@[s] == 0);
                }
                assert(lf@[s] == dw.lit_freq@[s]);
                assert(lls[s] > 0);
                if let LDPair::LengthDistance(_, d) = p {
                    let di = dist_index(d as nat) as int;
                    if di >= df0.len() {
                        assert(dw.dist_freq@[di] == 0);
                    }
                    assert(df0[di] == dw.dist_freq@[di]);
                    assert(df@[di] > 0);
                    assert(dls[di] > 0);
                }
            }
            enc.write_pairs(&dw.buffer);
            let ghost b = CodedBlock {
                fixed: false,
                last,
                header: h.header_bits(),
                lit_table: enc.lit_table,
                dist_table: enc.dist_table,
                recs: dw.buffer@,
            };
            assert(coded_block_bits(b) =~= block_header_bits(false, last) + h.header_bits()
                + pairs_bits(enc.lit_table, enc.dist_table, dw.buffer@));
            assert(enc.writer.bits() =~= w0 + coded_block_bits(b));
            assert(enc.writer.bits().skip(w0.len() as int) =~= coded_block_bits(b));
            assert(dynamic_header_ok(b.header, lls, dls));
            proof {
                let (i, j) = choose|i: int, j: int|
                    0 <= i < j < df@.len() && df@[i] > 0 && df@[j] > 0;
                assert(dls[i] > 0 && dls[j] > 0);
                assert(two_codes(dls));
                assert(!crate::length_limit::lone_symbol(df@));
                if two_codes(lls) {
                    let (x, y) = choose|x: int, y: int| 0 <= x < y < lls.len() && lls[x] > 0 && lls[y] > 0;
                    assert(lf@[x] > 0 && lf@[y] > 0);
                    assert(!crate::length_limit::lone_symbol(lf@));
                }
            }
            assert(block_ok(b));
        },
        _ => {
            assert(false);
        },
    }
}

proof fn lemma_push_block(
    prev: Seq<CodedBlock>,
    b: CodedBlock,
    input: Seq<u8>,
    start: nat,
    pos: nat,
    found: Seq<LDPair>,
)
    requires
        forall|i: int| 0 <= i < prev.len() ==> block_ok(#[trigger] prev[i]),
        forall|i: int| 0 <= i < prev.len() ==> !(#[trigger] prev[i]).last,
        expand(Seq::empty(), blocks_recs(prev)) == input.take(start as int),
        refs_fit(Seq::empty(), blocks_recs(prev)),
        expand(input.take(start as int), found) == input.take(pos as int),
        refs_fit(input.take(start as int), found),
        b.recs == found.push(LDPair::EndOfBlock),
        block_ok(b),
    ensures
        blocks_bits(prev.push(b)) == blocks_bits(prev) + coded_block_bits(b),
        blocks_bits(prev.push(b)).len() >= 3,
        forall|i: int| 0 <= i < prev.len() + 1 ==> block_ok(#[trigger] prev.push(b)[i]),
        forall|i: int| 0 <= i < prev.len() ==> !(#[trigger] prev.push(b)[i]).last,
        expand(Seq::empty(), blocks_recs(prev.push(b))) == input.take(pos as int),
        refs_fit(Seq::empty(), blocks_recs(prev.push(b))),
{
    let blocks = prev.push(b);
    assert(blocks.drop_last() =~= prev);
    lemma_expand_append(Seq::empty(), blocks_recs(prev), b.recs);
    lemma_expand_push(input.take(start as int), found, LDPair::EndOfBlock);
    assert(blocks_recs(blocks) == blocks_recs(prev) + b.recs);
    assert forall|i: int| 0 <= i < blocks.len() implies block_ok(#[trigger] blocks[i]) by {
        if i < prev.len() {
            assert(blocks[i] == prev[i]);
        }
    }
    assert forall|i: int| 0 <= i < prev.len() implies !(#[trigger] blocks[i]).last by {
        assert(blocks[i] == prev[i]);
    }
}

/// Compresses `input` into blocks with dynamic codes, one per filled record buffer.
fn compress_blocks(input: &[u8]) -> (r: Vec<u8>)
    ensures
        deflate_stream_ok(input@, r@),
        dynamic_stream_ok(input@, r@),
        r@.len() > 0,
{
    let (lt, dt) = fixed_tables();
    let mut enc = EncoderState { lit_table: lt, dist_table: dt, writer: BitWriter::new() };
    let mut lz = LZ77State::new();
    let ghost mut blocks: Seq<CodedBlock> = Seq::empty();
    assert(input@.take(0) =~= Seq::<u8>::empty());
    assert(blocks_parse(blocks) + greedy_parse(input@) =~= greedy_parse(input@));
    loop
        invariant_except_break
            forall|i: int| 0 <= i < blocks.len() ==> !(#[trigger] blocks[i]).last,
        invariant
            forall|i: int| 0 <= i < blocks.len() ==> !(#[trigger] blocks[i]).fixed,
            enc.wf(),
            lz.table.wf(),
            lz.pos <= input@.len(),
            enc.writer.bits() == blocks_bits(blocks),
            forall|i: int| 0 <= i < blocks.len() ==> block_ok(#[trigger] blocks[i]),
            expand(Seq::empty(), blocks_recs(blocks)) == input@.take(lz.pos as int),
            refs_fit(Seq::empty(), blocks_recs(blocks)),
            blocks_parse(blocks) + parse_from(input@, lz.table.head@, lz.table.prev@, lz.pos as int)
                == greedy_parse(input@),
        ensures
            blocks_parse(blocks) == greedy_parse(input@),
            enc.wf(),
            enc.writer.bits() == blocks_bits(blocks),
            blocks_bits(blocks).len() >= 3,
            blocks.len() > 0,
            forall|i: int| 0 <= i < blocks.len() ==> block_ok(#[trigger] blocks[i]),
            forall|i: int|
                0 <= i < blocks.len() ==> (#[trigger] blocks[i]).last == (i == blocks.len() - 1),
            expand(Seq::empty(), blocks_recs(blocks)) == input@,
            refs_fit(Seq::empty(), blocks_recs(blocks)),
        decreases input@.len() - lz.pos,
    {
        let ghost start = lz.pos;
        let ghost w0 = enc.writer.bits();
        let ghost prev = blocks;
        let ghost h0 = lz.table.head@;
        let ghost p0 = lz.table.prev@;
        let mut dw = DynamicWriter::new();
        lz77_compress_block(input, &mut lz, &mut dw);
        let ghost found = dw.buffer@;
        assert(parse_from(input@, h0, p0, start as int) == found + parse_from(
            input@,
            lz.table.head@,
            lz.table.prev@,
            lz.pos as int,
        ));
        dw.write_pair(LDPair::EndOfBlock);
        let last = lz.is_last_block(input);
        proof {
            assert forall|j: int| 0 <= j < dw.buffer@.len() - 1 implies !(
            #[trigger] dw.buffer@[j] is EndOfBlock) by {
                assert(dw.buffer@[j] == found[j]);
            }
        }
        write_dynamic_block(&mut enc, &dw, last);
        proof {
            let b = choose|b: CodedBlock|
                block_ok(b) && !b.fixed && b.recs == dw.buffer@ && b.last == last
                    && #[trigger] coded_block_bits(b) == enc.writer.bits().skip(w0.len() as int)
                    && enc.writer.bits() == w0 + coded_block_bits(b);
            lemma_push_block(prev, b, input@, start as nat, lz.pos as nat, found);
            blocks = prev.push(b);
            assert(blocks.drop_last() =~= prev);
            assert(b.recs.drop_last() =~= found);
            assert(blocks_parse(blocks) == blocks_parse(prev) + found);
            assert(blocks_parse(prev) + (found + parse_from(input@, lz.table.head@, lz.table.prev@,
                lz.pos as int)) =~= blocks_parse(blocks) + parse_from(input@, lz.table.head@,
                lz.table.prev@, lz.pos as int));
            if last {
                assert(blocks_parse(blocks) + Seq::<LDPair>::empty() =~= blocks_parse(blocks));
            }
            assert forall|i: int| 0 <= i < blocks.len() implies !(#[trigger] blocks[i]).fixed by {
                if i < prev.len() {
                    assert(blocks[i] == prev[i]);
                }
            }
            if last {
                assert(input@.take(lz.pos as int) =~= input@);
            }
        }
        if last {
            break;
        }
    }
    let ghost pend = enc.writer.pending();
    enc.writer.flush();
    proof {
        let pad = ((8 - pend) % 8) as nat;
        assert(bytes_bits(enc.writer.out@) == blocks_bits(blocks) + zeros(pad));
        assert(coded_stream(blocks, input@, enc.writer.out@));
        crate::bitstream::lemma_bytes_bits_len(enc.writer.out@);
        assert(dynamic_stream_ok(input@, enc.writer.out@));
    }
    enc.writer.out
}

/// Compresses `input` into a single block with the fixed Huffman code: the matcher's records,
/// one record buffer after another, then the end-of-block code.
pub fn compress_data_fixed(input: &[u8]) -> (r: Vec<u8>)
    ensures
        deflate_stream_ok(input@, r@),
        fixed_stream_ok(input@, r@),
        r@ == pack(fixed_block_bits(input@)),
        r@.len() > 0,
{
    let (lt, dt) = fixed_tables();
    let mut enc = EncoderState { lit_table: lt, dist_table: dt, writer: BitWriter::new() };
    enc.write_start_of_block(true, true);
    let mut lz = LZ77State::new();
    let ghost mut recs: Seq<LDPair> = Seq::empty();
    assert(Seq::<LDPair>::empty() + greedy_parse(input@) =~= greedy_parse(input@));
    assert(input@.take(0) =~= Seq::<u8>::empty());
    assert(enc.writer.bits() =~= block_header_bits(true, true) + pairs_bits(
        enc.lit_table,
        enc.dist_table,
        recs,
    ));
    while lz.pos < input.len()
        invariant
            enc.wf(),
            is_fixed_code(enc.lit_table.lengths@, enc.dist_table.lengths@),
            valid_lengths(enc.lit_table.lengths@),
            valid_lengths(enc.dist_table.lengths@),
            enc.lit_table.canonical(),
            enc.dist_table.canonical(),
            lz.table.wf(),
            lz.pos <= input@.len(),
            enc.writer.bits() == block_header_bits(true, true) + pairs_bits(
                enc.lit_table,
                enc.dist_table,
                recs,
            ),
            expand(Seq::empty(), recs) == input@.take(lz.pos as int),
            refs_fit(Seq::empty(), recs),
            forall|j: int| 0 <= j < recs.len() ==> !(#[trigger] recs[j] is EndOfBlock),
            forall|j: int|
                0 <= j < recs.len() ==> pair_in_tables(enc.lit_table, enc.dist_table, #[trigger] recs[j]),
            recs + parse_from(input@, lz.table.head@, lz.table.prev@, lz.pos as int) == greedy_parse(
                input@,
            ),
        decreases input@.len() - lz.pos,
    {
        let ghost start = lz.pos;
        let ghost h0 = lz.table.head@;
        let ghost p0 = lz.table.prev@;
        let mut dw = DynamicWriter::new();
        lz77_compress_block(input, &mut lz, &mut dw);
        assert(parse_from(input@, h0, p0, start as int) == dw.buffer@ + parse_from(
            input@,
            lz.table.head@,
            lz.table.prev@,
            lz.pos as int,
        ));
        assert forall|j: int| 0 <= j < dw.buffer@.len() implies pair_in_tables(
            enc.lit_table,
            enc.dist_table,
            #[trigger] dw.buffer@[j],
        ) by {
            assert(dw.counted(dw.buffer@[j]));
        }
        let ghost before = enc.writer.bits();
        enc.write_pairs(&dw.buffer);
        proof {
            let prev = recs;
            lemma_pairs_bits_append(enc.lit_table, enc.dist_table, prev, dw.buffer@);
            lemma_expand_append(Seq::empty(), prev, dw.buffer@);
            recs = prev + dw.buffer@;
            assert(prev + (dw.buffer@ + parse_from(input@, lz.table.head@, lz.table.prev@, lz.pos as int))
                =~= recs + parse_from(input@, lz.table.head@, lz.table.prev@, lz.pos as int));
            assert(enc.writer.bits() =~= block_header_bits(true, true) + pairs_bits(
                enc.lit_table,
                enc.dist_table,
                recs,
            ));
            assert forall|j: int| 0 <= j < recs.len() implies !(#[trigger] recs[j] is EndOfBlock)
                && pair_in_tables(enc.lit_table, enc.dist_table, recs[j]) by {
                if j >= prev.len() {
                    assert(recs[j] == dw.buffer@[j - prev.len()]);
                }
            }
        }
    }
    assert(input@.take(lz.pos as int) =~= input@);
    assert(recs + Seq::<LDPair>::empty() =~= recs);
    let ghost prev = recs;
    proof {
        crate::encoder_state::lemma_pairs_bits_append(
            enc.lit_table,
            enc.dist_table,
            prev,
            seq![LDPair::EndOfBlock],
        );
        lemma_expand_push(Seq::empty(), prev, LDPair::EndOfBlock);
        assert(prev + seq![LDPair::EndOfBlock] =~= prev.push(LDPair::EndOfBlock));
        assert(seq![LDPair::EndOfBlock].drop_last() =~= Seq::<LDPair>::empty());
        assert(seq![LDPair::EndOfBlock].last() == LDPair::EndOfBlock);
        assert(pairs_bits(enc.lit_table, enc.dist_table, seq![LDPair::EndOfBlock]) =~= pairs_bits(
            enc.lit_table,
            enc.dist_table,
            Seq::<LDPair>::empty(),
        ) + crate::encoder_state::pair_bits(enc.lit_table, enc.dist_table, LDPair::EndOfBlock));
    }
    enc.write_ldpair(LDPair::EndOfBlock);
    let ghost b = CodedBlock {
        fixed: true,
        last: true,
        header: Seq::empty(),
        lit_table: enc.lit_table,
        dist_table: enc.dist_table,
        recs: prev.push(LDPair::EndOfBlock),
    };
    let ghost pend = enc.writer.pending();
    proof {
        assert(coded_block_bits(b) =~= block_header_bits(true, true) + pairs_bits(
            enc.lit_table,
            enc.dist_table,
            b.recs,
        ));
        assert(enc.writer.bits() =~= coded_block_bits(b));
        assert forall|j: int| 0 <= j < b.recs.len() implies pair_in_tables(
            b.lit_table,
            b.dist_table,
            #[trigger] b.recs[j],
        ) by {
            if j < prev.len() {
                assert(b.recs[j] == prev[j]);
            }
        }
        assert forall|j: int| 0 <= j < b.recs.len() - 1 implies !(#[trigger] b.recs[j] is EndOfBlock) by {
            assert(b.recs[j] == prev[j]);
        }
        assert(block_ok(b));
    }
    enc.writer.flush();
    proof {
        let bs = seq![b];
        assert(bs.drop_last() =~= Seq::<CodedBlock>::empty());
        assert(bs.last() == b);
        assert(blocks_bits(Seq::<CodedBlock>::empty()) == Seq::<bool>::empty());
        assert(blocks_recs(Seq::<CodedBlock>::empty()) == Seq::<LDPair>::empty());
        assert(blocks_bits(bs) =~= coded_block_bits(b));
        assert(blocks_recs(bs) =~= b.recs);
        let pad = ((8 - pend) % 8) as nat;
        assert(bytes_bits(enc.writer.out@) == blocks_bits(bs) + zeros(pad));
        assert(coded_stream(bs, input@, enc.writer.out@));
        assert(fixed_stream_ok(input@, enc.writer.out@));
        crate::bitstream::lemma_bytes_bits_len(enc.writer.out@);
        lemma_pairs_bits_canonical(b.lit_table, b.dist_table, b.recs);
        assert(b.lit_table.lengths@ =~= fixed_lit_seq());
        assert(b.dist_table.lengths@ =~= fixed_dist_seq());
        assert(coded_block_bits(b) == fixed_block_bits(input@));
        lemma_pack_unique(fixed_block_bits(input@), enc.writer.out@, pad);
    }
    enc.writer.out
}

/// Appends the bytes of `v` to `out`.
fn append_bytes(out: &mut Vec<u8>, v: &Vec<u8>)
    ensures
        final(out)@ == old(out)@ + v@,
{
    let mut i: usize = 0;
    while i < v.len()
        invariant
            i <= v@.len(),
            out@ == old(out)@ + v@.take(i as int),
        decreases v@.len() - i,
    {
        out.push(v[i]);
        i = i + 1;
        assert(out@ =~= old(out)@ + v@.take(i as int));
    }
    assert(v@.take(i as int) =~= v@);
}

/// The output by input length: exactly the stored blocks below 20 bytes, exactly the single
/// fixed-code block of the greedy parse below 70, dynamic blocks of the greedy parse from
/// there on.
pub open spec fn deflate_output_ok(input: Seq<u8>, out: Seq<u8>) -> bool {
    &&& input.len() < 20 ==> out == stored_stream(input)
    &&& 20 <= input.len() < 70 ==> fixed_stream_ok(input, out) && out == pack(fixed_block_bits(input))
    &&& 70 <= input.len() ==> dynamic_stream_ok(input, out)
}

/// Appends the DEFLATE stream of `input` to `out`: stored blocks below 20 bytes, one fixed
/// block below 70, dynamic blocks from there on.
pub fn compress_data_dynamic(input: &[u8], out: &mut Vec<u8>)
    ensures
        old(out)@.is_prefix_of(final(out)@),
        final(out)@.len() > old(out)@.len(),
        input@.len() < 20 ==> final(out)@ == old(out)@ + stored_stream(input@),
        input@.len() >= 20 ==> deflate_stream_ok(input@, final(out)@.skip(old(out)@.len() as int)),
        deflate_output_ok(input@, final(out)@.skip(old(out)@.len() as int)),
{
    let v = match block_type_for_length(input.len()) {
        BType::NoCompression => compress_data_stored(input),
        BType::FixedHuffman => compress_data_fixed(input),
        BType::DynamicHuffman => compress_blocks(input),
    };
    if input.len() < 20 {
        assert(stored_stream(input@).len() >= 5);
    }
    assert(deflate_output_ok(input@, v@));
    append_bytes(out, &v);
    assert(final(out)@.take(old(out)@.len() as int) =~= old(out)@);
    assert(final(out)@.skip(old(out)@.len() as int) =~= v@);
}

/// Compresses `input` into a raw DEFLATE stream.
pub fn deflate_bytes(input: &[u8]) -> (r: Vec<u8>)
    ensures
        r@.len() > 0,
        input@.len() < 20 ==> r@ == stored_stream(input@),
        input@.len() >= 20 ==> deflate_stream_ok(input@, r@),
        deflate_output_ok(input@, r@),
{
    let mut out: Vec<u8> = Vec::new();
    compress_data_dynamic(input, &mut out);
    assert(input@.len() < 20 ==> out@ =~= stored_stream(input@));
    assert(out@.skip(0) =~= out@);
    out
}

/// Compresses `input` into a zlib stream: the header, the DEFLATE stream, and the Adler-32
/// checksum of `input`, big-endian.
pub fn deflate_bytes_zlib(input: &[u8]) -> (r: Vec<u8>)
    ensures
        r@.len() >= 7,
        r@.take(2) == zlib_header(),
        r@.skip(r@.len() - 4) == be32(adler32_of(input@)),
        input@.len() < 20 ==> r@ == zlib_header() + stored_stream(input@) + be32(adler32_of(input@)),
        input@.len() >= 20 ==> deflate_stream_ok(input@, r@.subrange(2, r@.len() - 4)),
        deflate_output_ok(input@, r@.subrange(2, r@.len() - 4)),
{
    let mut out: Vec<u8> = Vec::new();
    write_zlib_header(&mut out);
    compress_data_dynamic(input, &mut out);
    let ghost body = out@;
    let hash = adler32_checksum(input);
    write_u32_be(&mut out, hash);
    assert(out@.subrange(2, out@.len() - 4) =~= body.skip(2));
    assert(out@.take(2) =~= body.take(2));
    assert(body.take(2) =~= zlib_header());
    assert(out@.skip(out@.len() - 4) =~= be32(adler32_of(input@)));
    assert(input@.len() < 20 ==> out@ =~= zlib_header() + stored_stream(input@) + be32(adler32_of(input@)));
    out
}

} // verus!
