//! The block emitter: block headers, and records coded with the installed Huffman tables.
use vstd::prelude::*;
use vstd::arithmetic::power2::{pow2, lemma2_to64};
use crate::bitstream::{BitWriter, bits_of};
use crate::huffman_table::{HuffmanTable, valid_lengths, fixed_lit_length, kraft_sum, msb_bits, canonical_code};
use crate::huffman_lengths::DynamicHeader;
use crate::bitstream::{bytes_bits, zeros};
use crate::length_encode::{
    length_index, dist_index, length_base, length_extra, dist_base, dist_extra, length_code,
    dist_code,
};
use crate::lz77::{LDPair, lit_symbol, expand, refs_fit, greedy_parse};

verus! {

/// The bits of a block header: BFINAL, then BTYPE (01 fixed, 10 dynamic).
pub open spec fn block_header_bits(fixed: bool, last: bool) -> Seq<bool> {
    bits_of(if last { 1u32 } else { 0u32 }, 1) + bits_of(if fixed { 1u32 } else { 2u32 }, 2)
}

/// The symbols of `p` have codes in the tables.
pub open spec fn pair_in_tables(lt: HuffmanTable, dt: HuffmanTable, p: LDPair) -> bool {
    &&& 0 <= lit_symbol(p) < lt.lengths@.len()
    &&& lt.lengths@[lit_symbol(p)] > 0
    &&& (p matches LDPair::LengthDistance(l, d) ==> 3 <= l <= 258 && 1 <= d <= 32768
        && dist_index(d as nat) < dt.lengths@.len() && dt.lengths@[dist_index(d as nat) as int] > 0)
}

/// The bits that code record `p`: its literal/length code and, for a match, the length's
/// extra bits, the distance code and the distance's extra bits.
pub open spec fn pair_bits(lt: HuffmanTable, dt: HuffmanTable, p: LDPair) -> Seq<bool> {
    match p {
        LDPair::Literal(b) => lt.sym_bits(b as int),
        LDPair::EndOfBlock => lt.sym_bits(256),
        LDPair::LengthDistance(l, d) => {
            let li = length_index(l as nat) as int;
            let di = dist_index(d as nat) as int;
            lt.sym_bits(257 + li) + bits_of((l - length_base(li)) as u32, length_extra(li)) + dt.sym_bits(di)
                + bits_of((d - dist_base(di)) as u32, dist_extra(di))
        },
    }
}

/// The bit writer with the literal/length and distance tables of the current block.
pub struct EncoderState {
    pub lit_table: HuffmanTable,
    pub dist_table: HuffmanTable,
    pub writer: BitWriter,
}

impl EncoderState {
    pub open spec fn wf(&self) -> bool {
        self.lit_table.wf() && self.dist_table.wf() && self.writer.wf()
    }

    /// Writes BFINAL and BTYPE.
    pub fn write_start_of_block(&mut self, fixed: bool, last: bool)
        requires
            old(self).wf(),
        ensures
            final(self).wf(),
            final(self).lit_table == old(self).lit_table,
            final(self).dist_table == old(self).dist_table,
            final(self).writer.bits() == old(self).writer.bits() + block_header_bits(fixed, last),
    {
        proof {
            lemma2_to64();
        }
        self.writer.write_bits(if last { 1 } else { 0 }, 1);
        self.writer.write_bits(if fixed { 1 } else { 2 }, 2);
        assert(self.writer.bits() =~= old(self).writer.bits() + block_header_bits(fixed, last));
    }

    /// Writes the code of one symbol of a table.
    fn write_symbol(writer: &mut BitWriter, t: &HuffmanTable, s: usize)
        requires
            old(writer).wf(),
            t.wf(),
            s < t.lengths@.len(),
        ensures
            final(writer).wf(),
            final(writer).bits() == old(writer).bits() + t.sym_bits(s as int),
    {
        let l = t.lengths[s];
        let c = t.codes[s];
        writer.write_bits(c, l as u32);
    }

    /// Writes the bits of one record.
    pub fn write_ldpair(&mut self, p: LDPair)
        requires
            old(self).wf(),
            pair_in_tables(old(self).lit_table, old(self).dist_table, p),
        ensures
            final(self).wf(),
            final(self).lit_table == old(self).lit_table,
            final(self).dist_table == old(self).dist_table,
            final(self).writer.bits() == old(self).writer.bits() + pair_bits(
                old(self).lit_table,
                old(self).dist_table,
                p,
            ),
    {
        match p {
            LDPair::Literal(b) => {
                Self::write_symbol(&mut self.writer, &self.lit_table, b as usize);
            },
            LDPair::EndOfBlock => {
                Self::write_symbol(&mut self.writer, &self.lit_table, 256);
            },
            LDPair::LengthDistance(l, d) => {
                let ghost w0 = self.writer.bits();
                let (li, lextra, lbits) = length_code(l);
                Self::write_symbol(&mut self.writer, &self.lit_table, 257 + li);
                let ghost w1 = self.writer.bits();
                self.writer.write_bits(lextra, lbits);
                let ghost w2 = self.writer.bits();
                let (di, dextra, dbits) = dist_code(d);
                Self::write_symbol(&mut self.writer, &self.dist_table, di);
                let ghost w3 = self.writer.bits();
                self.writer.write_bits(dextra, dbits);
                assert(lextra == (l - length_base(li as int)) as u32);
                assert(dextra == (d - dist_base(di as int)) as u32);
                assert(self.writer.bits() =~= w0 + pair_bits(self.lit_table, self.dist_table, p));
            },
        }
    }
}

/// The bits of a run of records.
pub open spec fn pairs_bits(lt: HuffmanTable, dt: HuffmanTable, recs: Seq<LDPair>) -> Seq<bool>
    decreases recs.len(),
{
    if recs.len() == 0 {
        Seq::empty()
    } else {
        pairs_bits(lt, dt, recs.drop_last()) + pair_bits(lt, dt, recs.last())
    }
}

pub proof fn lemma_pairs_bits_append(lt: HuffmanTable, dt: HuffmanTable, a: Seq<LDPair>, b: Seq<LDPair>)
    ensures
        pairs_bits(lt, dt, a + b) == pairs_bits(lt, dt, a) + pairs_bits(lt, dt, b),
    decreases b.len(),
{
    if b.len() == 0 {
        assert(a + b =~= a);
        assert(pairs_bits(lt, dt, a) + pairs_bits(lt, dt, b) =~= pairs_bits(lt, dt, a));
    } else {
        lemma_pairs_bits_append(lt, dt, a, b.drop_last());
        assert((a + b).drop_last() =~= a + b.drop_last());
        assert((a + b).last() == b.last());
        assert(pairs_bits(lt, dt, a + b) =~= pairs_bits(lt, dt, a) + pairs_bits(lt, dt, b));
    }
}

impl EncoderState {
    /// Writes a run of records.
    pub fn write_pairs(&mut self, recs: &Vec<LDPair>)
        requires
            old(self).wf(),
            forall|j: int|
                0 <= j < recs@.len() ==> pair_in_tables(
                    old(self).lit_table,
                    old(self).dist_table,
                    #[trigger] recs@[j],
                ),
        ensures
            final(self).wf(),
            final(self).lit_table == old(self).lit_table,
            final(self).dist_table == old(self).dist_table,
            final(self).writer.bits() == old(self).writer.bits() + pairs_bits(
                old(self).lit_table,
                old(self).dist_table,
                recs@,
            ),
    {
        let mut j: usize = 0;
        while j < recs.len()
            invariant
                j <= recs@.len(),
                self.wf(),
                self.lit_table == old(self).lit_table,
                self.dist_table == old(self).dist_table,
                forall|k: int|
                    0 <= k < recs@.len() ==> pair_in_tables(
                        old(self).lit_table,
                        old(self).dist_table,
                        #[trigger] recs@[k],
                    ),
                self.writer.bits() == old(self).writer.bits() + pairs_bits(
                    self.lit_table,
                    self.dist_table,
                    recs@.take(j as int),
                ),
            decreases recs@.len() - j,
        {
            assert(recs@.take(j + 1).drop_last() =~= recs@.take(j as int));
            let p = recs[j];
            assert(pair_in_tables(self.lit_table, self.dist_table, recs@[j as int]));
            self.write_ldpair(p);
            j = j + 1;
            assert(self.writer.bits() =~= old(self).writer.bits() + pairs_bits(
                self.lit_table,
                self.dist_table,
                recs@.take(j as int),
            ));
        }
        assert(recs@.take(j as int) =~= recs@);
    }
}

/// What one Huffman-coded block holds: its BFINAL and BTYPE, the bits of its code
/// description (none for the fixed code), its two code tables and its records.
pub struct CodedBlock {
    pub fixed: bool,
    pub last: bool,
    pub header: Seq<bool>,
    pub lit_table: HuffmanTable,
    pub dist_table: HuffmanTable,
    pub recs: Seq<LDPair>,
}

/// The bits of a coded block.
pub open spec fn coded_block_bits(b: CodedBlock) -> Seq<bool> {
    block_header_bits(b.fixed, b.last) + b.header + pairs_bits(b.lit_table, b.dist_table, b.recs)
}

/// The lengths of the fixed codes.
pub open spec fn is_fixed_code(lt: Seq<u8>, dt: Seq<u8>) -> bool {
    &&& lt.len() == 288
    &&& dt.len() == 30
    &&& forall|i: int| 0 <= i < 288 ==> #[trigger] lt[i] == fixed_lit_length(i)
    &&& forall|i: int| 0 <= i < 30 ==> #[trigger] dt[i] == 5
}

/// `bits` describe the code lengths `ll` and `dl` as a dynamic block header does.
pub open spec fn dynamic_header_ok(bits: Seq<bool>, ll: Seq<u8>, dl: Seq<u8>) -> bool {
    exists|h: DynamicHeader|
        #![trigger h.header_bits()]
        h.wf() && h.cl_order_ok() && h.header_bits() == bits && h.num_lit == ll.len()
            && h.num_dist == dl.len() && crate::huffman_lengths::rle_expand(h.rle@) == ll + dl
}

/// A well-formed coded block: canonical prefix codes, records that end with the one end-of-block
/// record and whose symbols all have codes, and a header that describes the codes.
pub open spec fn block_ok(b: CodedBlock) -> bool {
    &&& b.lit_table.wf()
    &&& b.dist_table.wf()
    &&& valid_lengths(b.lit_table.lengths@)
    &&& valid_lengths(b.dist_table.lengths@)
    &&& b.lit_table.canonical()
    &&& b.dist_table.canonical()
    &&& b.recs.len() > 0
    &&& b.recs.last() == LDPair::EndOfBlock
    &&& forall|j: int| 0 <= j < b.recs.len() - 1 ==> !(#[trigger] b.recs[j] is EndOfBlock)
    &&& forall|j: int|
        0 <= j < b.recs.len() ==> pair_in_tables(b.lit_table, b.dist_table, #[trigger] b.recs[j])
    &&& b.fixed ==> b.header == Seq::<bool>::empty() && is_fixed_code(
        b.lit_table.lengths@,
        b.dist_table.lengths@,
    )
    &&& !b.fixed ==> dynamic_header_ok(b.header, b.lit_table.lengths@, b.dist_table.lengths@)
        && two_codes(b.dist_table.lengths@) && complete_code(b.dist_table.lengths@)
        && complete_or_single(b.lit_table.lengths@)
}

/// The lengths fill the whole code space: the Kraft sum is exactly one.
pub open spec fn complete_code(ls: Seq<u8>) -> bool {
    kraft_sum(ls) == pow2(15)
}

/// A complete code, or one with a single symbol.
pub open spec fn complete_or_single(ls: Seq<u8>) -> bool {
    complete_code(ls) || !two_codes(ls)
}

/// At least two symbols have codes.
pub open spec fn two_codes(ls: Seq<u8>) -> bool {
    exists|i: int, j: int| 0 <= i < j < ls.len() && ls[i] > 0 && ls[j] > 0
}

/// The bits of a run of coded blocks.
pub open spec fn blocks_bits(bs: Seq<CodedBlock>) -> Seq<bool>
    decreases bs.len(),
{
    if bs.len() == 0 {
        Seq::empty()
    } else {
        blocks_bits(bs.drop_last()) + coded_block_bits(bs.last())
    }
}

/// The records of a run of coded blocks, in order.
pub open spec fn blocks_recs(bs: Seq<CodedBlock>) -> Seq<LDPair>
    decreases bs.len(),
{
    if bs.len() == 0 {
        Seq::empty()
    } else {
        blocks_recs(bs.drop_last()) + bs.last().recs
    }
}

/// `out` is a DEFLATE stream of the coded blocks `bs`, padded to a byte boundary, whose
/// records decode to `input`; only the final block is marked last.
pub open spec fn coded_stream(bs: Seq<CodedBlock>, input: Seq<u8>, out: Seq<u8>) -> bool {
    &&& bs.len() > 0
    &&& forall|i: int| 0 <= i < bs.len() ==> block_ok(#[trigger] bs[i])
    &&& forall|i: int| 0 <= i < bs.len() ==> (#[trigger] bs[i]).last == (i == bs.len() - 1)
    &&& expand(Seq::empty(), blocks_recs(bs)) == input
    &&& refs_fit(Seq::empty(), blocks_recs(bs))
    &&& exists|pad: nat| pad < 8 && #[trigger] bytes_bits(out) == blocks_bits(bs) + zeros(pad)
}

/// `out` is a Huffman-coded DEFLATE stream of `input`.
pub open spec fn deflate_stream_ok(input: Seq<u8>, out: Seq<u8>) -> bool {
    exists|bs: Seq<CodedBlock>| coded_stream(bs, input, out)
}

/// `out` is a DEFLATE stream of `input` made of a single block that uses the fixed code and
/// holds the greedy parse of `input`.
pub open spec fn fixed_stream_ok(input: Seq<u8>, out: Seq<u8>) -> bool {
    exists|bs: Seq<CodedBlock>|
        coded_stream(bs, input, out) && bs.len() == 1 && bs[0].fixed && bs[0].recs == greedy_parse(
            input,
        ).push(LDPair::EndOfBlock)
}

/// The records of a run of blocks, each without its end-of-block record.
pub open spec fn blocks_parse(bs: Seq<CodedBlock>) -> Seq<LDPair>
    decreases bs.len(),
{
    if bs.len() == 0 {
        Seq::empty()
    } else {
        blocks_parse(bs.drop_last()) + bs.last().recs.drop_last()
    }
}

/// `out` is a DEFLATE stream of `input` whose blocks all carry dynamic codes and together
/// hold the greedy parse of `input`.
pub open spec fn dynamic_stream_ok(input: Seq<u8>, out: Seq<u8>) -> bool {
    exists|bs: Seq<CodedBlock>|
        coded_stream(bs, input, out) && (forall|i: int| 0 <= i < bs.len() ==> !(#[trigger] bs[i]).fixed)
            && blocks_parse(bs) == greedy_parse(input)
}

/// The bits of symbol `s` in the canonical code of the lengths `ls`, most significant first.
pub open spec fn canon_bits(ls: Seq<u8>, s: int) -> Seq<bool> {
    msb_bits(canonical_code(ls, s) as u32, ls[s] as nat)
}

/// The bits of record `p` under the canonical codes of the lengths `ll` and `dl`.
pub open spec fn canon_pair_bits(ll: Seq<u8>, dl: Seq<u8>, p: LDPair) -> Seq<bool> {
    match p {
        LDPair::Literal(b) => canon_bits(ll, b as int),
        LDPair::EndOfBlock => canon_bits(ll, 256),
        LDPair::LengthDistance(l, d) => {
            let li = length_index(l as nat) as int;
            let di = dist_index(d as nat) as int;
            canon_bits(ll, 257 + li) + bits_of((l - length_base(li)) as u32, length_extra(li))
                + canon_bits(dl, di) + bits_of((d - dist_base(di)) as u32, dist_extra(di))
        },
    }
}

/// The bits of a run of records under the canonical codes of `ll` and `dl`.
pub open spec fn canon_pairs_bits(ll: Seq<u8>, dl: Seq<u8>, recs: Seq<LDPair>) -> Seq<bool>
    decreases recs.len(),
{
    if recs.len() == 0 {
        Seq::empty()
    } else {
        canon_pairs_bits(ll, dl, recs.drop_last()) + canon_pair_bits(ll, dl, recs.last())
    }
}

/// With canonical tables, the bits of records depend on the code lengths alone.
pub proof fn lemma_pairs_bits_canonical(lt: HuffmanTable, dt: HuffmanTable, recs: Seq<LDPair>)
    requires
        lt.wf(),
        dt.wf(),
        lt.canonical(),
        dt.canonical(),
        forall|j: int| 0 <= j < recs.len() ==> pair_in_tables(lt, dt, #[trigger] recs[j]),
    ensures
        pairs_bits(lt, dt, recs) == canon_pairs_bits(lt.lengths@, dt.lengths@, recs),
    decreases recs.len(),
{
    if recs.len() > 0 {
        lemma_pairs_bits_canonical(lt, dt, recs.drop_last());
        let p = recs.last();
        assert(pair_in_tables(lt, dt, recs[recs.len() - 1]));
        assert(lt.sym_bits(lit_symbol(p)) == canon_bits(lt.lengths@, lit_symbol(p)));
        if let LDPair::LengthDistance(l, d) = p {
            let di = dist_index(d as nat) as int;
            assert(dt.sym_bits(di) == canon_bits(dt.lengths@, di));
        }
        assert(pair_bits(lt, dt, p) == canon_pair_bits(lt.lengths@, dt.lengths@, p));
    }
}

/// The lengths of the fixed literal/length code.
pub open spec fn fixed_lit_seq() -> Seq<u8> {
    Seq::new(288, |i: int| fixed_lit_length(i))
}

/// The lengths of the fixed distance code.
pub open spec fn fixed_dist_seq() -> Seq<u8> {
    Seq::new(30, |i: int| 5u8)
}

/// The bits of the single fixed-code block for `input`: its header, the greedy parse and the
/// end-of-block code.
pub open spec fn fixed_block_bits(input: Seq<u8>) -> Seq<bool> {
    block_header_bits(true, true) + canon_pairs_bits(
        fixed_lit_seq(),
        fixed_dist_seq(),
        greedy_parse(input).push(LDPair::EndOfBlock),
    )
}

/// The bytes that carry `bits`, padded with zero bits to a byte boundary.
pub open spec fn pack(bits: Seq<bool>) -> Seq<u8> {
    choose|out: Seq<u8>| exists|pad: nat| pad < 8 && #[trigger] bytes_bits(out) == bits + zeros(pad)
}

/// There is only one way to pack bits into bytes with fewer than eight bits of padding.
pub proof fn lemma_pack_unique(bits: Seq<bool>, out: Seq<u8>, pad: nat)
    requires
        pad < 8,
        bytes_bits(out) == bits + zeros(pad),
    ensures
        pack(bits) == out,
{
    let other = pack(bits);
    assert(exists|p: nat| p < 8 && #[trigger] bytes_bits(out) == bits + zeros(p));
    let p2 = choose|p: nat| p < 8 && #[trigger] bytes_bits(other) == bits + zeros(p);
    crate::bitstream::lemma_bytes_bits_len(out);
    crate::bitstream::lemma_bytes_bits_len(other);
    assert(bits.len() + pad == 8 * out.len());
    assert(bits.len() + p2 == 8 * other.len());
    assert(pad == p2) by (nonlinear_arith)
        requires
            bits.len() + pad == 8 * out.len(),
            bits.len() + p2 == 8 * other.len(),
            pad < 8,
            p2 < 8,
    ;
    crate::bitstream::lemma_bytes_bits_injective(out, other);
}

} // verus!
