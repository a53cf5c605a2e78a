//! The header of a dynamic block: the code lengths of both alphabets, run-length coded with
//! the code-length alphabet, whose own lengths come first in a fixed order.
use vstd::prelude::*;
use vstd::arithmetic::power2::{pow2, lemma2_to64};
use crate::bitstream::{BitWriter, bits_of};
use crate::huffman_table::{HuffmanTable, valid_lengths};
use crate::length_limit::huffman_lengths_from_frequency;

verus! {

/// The fewest literal/length code lengths a dynamic header holds.
pub const MIN_NUM_LITERALS_AND_LENGTHS: usize = 257;

/// The fewest distance code lengths a dynamic header holds.
pub const MIN_NUM_DISTANCES: usize = 1;

/// The longest code of the code-length alphabet.
pub const MAX_CODE_LENGTH_LENGTH: u8 = 7;

/// The order in which the code-length alphabet's own lengths are sent.
pub open spec fn cl_order(i: int) -> int {
    seq![16int, 17, 18, 0, 8, 7, 9, 6, 10, 5, 11, 4, 12, 3, 13, 2, 14, 1, 15][i]
}

fn cl_order_of(i: usize) -> (r: usize)
    requires
        i < 19,
    ensures
        r == cl_order(i as int),
        r < 19,
{
    let order: [usize; 19] = [16, 17, 18, 0, 8, 7, 9, 6, 10, 5, 11, 4, 12, 3, 13, 2, 14, 1, 15];
    assert(order@ =~= seq![16usize, 17, 18, 0, 8, 7, 9, 6, 10, 5, 11, 4, 12, 3, 13, 2, 14, 1, 15]);
    order[i]
}

/// `freqs` without its trailing zeros, but no shorter than `min`.
pub fn remove_trailing_zeroes(freqs: &Vec<u32>, min: usize) -> (r: Vec<u32>)
    requires
        min <= freqs@.len(),
    ensures
        min <= r@.len() <= freqs@.len(),
        r@ == freqs@.take(r@.len() as int),
        forall|i: int| r@.len() <= i < freqs@.len() ==> freqs@[i] == 0,
        r@.len() == min || freqs@[r@.len() - 1] != 0,
{
    let mut n = freqs.len();
    while n > min && freqs[n - 1] == 0
        invariant
            min <= n <= freqs@.len(),
            forall|i: int| n <= i < freqs@.len() ==> freqs@[i] == 0,
        decreases n,
    {
        n = n - 1;
    }
    let mut r: Vec<u32> = Vec::new();
    let mut i: usize = 0;
    while i < n
        invariant
            i <= n <= freqs@.len(),
            r@ == freqs@.take(i as int),
        decreases n - i,
    {
        r.push(freqs[i]);
        i = i + 1;
        assert(r@ =~= freqs@.take(i as int));
    }
    r
}

/// A code-length symbol with its extra bits: symbols 16, 17 and 18 carry 2, 3 and 7.
pub open spec fn rle_ok(s: (u8, u8)) -> bool {
    &&& s.0 < 19
    &&& s.0 < 16 ==> s.1 == 0
    &&& s.0 == 16 ==> s.1 < 4
    &&& s.0 == 17 ==> s.1 < 8
    &&& s.0 == 18 ==> s.1 < 128
}

/// How many extra bits follow code-length symbol `s`.
pub open spec fn rle_extra_bits(s: u8) -> nat {
    if s == 16 {
        2
    } else if s == 17 {
        3
    } else if s == 18 {
        7
    } else {
        0
    }
}

/// What a decoder rebuilds from the run-length coded lengths.
pub open spec fn rle_expand(syms: Seq<(u8, u8)>) -> Seq<u8>
    decreases syms.len(),
{
    if syms.len() == 0 {
        Seq::empty()
    } else {
        let pre = rle_expand(syms.drop_last());
        let s = syms.last();
        if s.0 < 16 {
            pre.push(s.0)
        } else if s.0 == 16 {
            pre + Seq::new(3 + s.1 as nat, |i: int| pre.last())
        } else if s.0 == 17 {
            pre + Seq::new(3 + s.1 as nat, |i: int| 0u8)
        } else {
            pre + Seq::new(11 + s.1 as nat, |i: int| 0u8)
        }
    }
}

/// The bits of the run-length coded lengths under the code-length table `t`.
pub open spec fn rle_bits(t: HuffmanTable, syms: Seq<(u8, u8)>) -> Seq<bool>
    decreases syms.len(),
{
    if syms.len() == 0 {
        Seq::empty()
    } else {
        let s = syms.last();
        rle_bits(t, syms.drop_last()) + t.sym_bits(s.0 as int) + bits_of(s.1 as u32, rle_extra_bits(s.0))
    }
}

/// The lengths of both alphabets, run-length coded.
pub fn rle_encode(ls: &Vec<u8>) -> (r: Vec<(u8, u8)>)
    requires
        forall|i: int| 0 <= i < ls@.len() ==> #[trigger] ls@[i] <= 15,
    ensures
        forall|j: int| 0 <= j < r@.len() ==> #[trigger] rle_ok(r@[j]),
        rle_expand(r@) == ls@,
        r@.len() <= ls@.len(),
        r@.len() > 0 ==> r@[0].0 != 16,
{
    let n = ls.len();
    let mut r: Vec<(u8, u8)> = Vec::new();
    let mut i: usize = 0;
    proof {
        assert(rle_expand(r@) =~= ls@.take(0));
    }
    while i < n
        invariant
            i <= n == ls@.len(),
            forall|k: int| 0 <= k < ls@.len() ==> #[trigger] ls@[k] <= 15,
            forall|j: int| 0 <= j < r@.len() ==> #[trigger] rle_ok(r@[j]),
            rle_expand(r@) == ls@.take(i as int),
            r@.len() <= i,
            i > 0 ==> r@.len() > 0,
            r@.len() > 0 ==> r@[0].0 != 16,
        decreases n - i,
    {
        let v = ls[i];
        let mut run: usize = 1;
        while i + run < n && ls[i + run] == v
            invariant
                i + run <= n == ls@.len(),
                run >= 1,
                forall|k: int| i <= k < i + run ==> #[trigger] ls@[k] == v,
            decreases n - i - run,
        {
            run = run + 1;
        }
        if v == 0 && run >= 3 {
            let n_rep: usize = if run > 138 { 138 } else { run };
            let ghost pre = r@;
            if n_rep >= 11 {
                r.push((18u8, (n_rep - 11) as u8));
            } else {
                r.push((17u8, (n_rep - 3) as u8));
            }
            proof {
                assert(r@.drop_last() =~= pre);
                assert(rle_expand(r@) =~= ls@.take((i + n_rep) as int));
            }
            i = i + n_rep;
        } else if v != 0 && i > 0 && ls[i - 1] == v && run >= 3 {
            let n_rep: usize = if run > 6 { 6 } else { run };
            let ghost pre = r@;
            r.push((16u8, (n_rep - 3) as u8));
            proof {
                assert(r@.drop_last() =~= pre);
                assert(rle_expand(pre).last() == v);
                assert(rle_expand(r@) =~= ls@.take((i + n_rep) as int));
            }
            i = i + n_rep;
        } else {
            let ghost pre = r@;
            r.push((v, 0u8));
            proof {
                assert(r@.drop_last() =~= pre);
                assert(rle_expand(r@) =~= ls@.take((i + 1) as int));
            }
            i = i + 1;
        }
    }
    assert(ls@.take(n as int) =~= ls@);
    r
}

/// Everything a dynamic block header sends, ready to be written.
pub struct DynamicHeader {
    pub num_lit: usize,
    pub num_dist: usize,
    pub rle: Vec<(u8, u8)>,
    pub cl_table: HuffmanTable,
    pub cl_ordered: Vec<u8>,
}

impl DynamicHeader {
    pub open spec fn wf(&self) -> bool {
        &&& 257 <= self.num_lit <= 286
        &&& 1 <= self.num_dist <= 30
        &&& self.cl_table.wf()
        &&& self.cl_table.lengths@.len() == 19
        &&& 4 <= self.cl_ordered@.len() <= 19
        &&& forall|i: int| 0 <= i < self.cl_ordered@.len() ==> #[trigger] self.cl_ordered@[i] <= 7
        &&& forall|j: int| 0 <= j < self.rle@.len() ==> #[trigger] rle_ok(self.rle@[j])
        &&& self.rle@.len() > 0 ==> self.rle@[0].0 != 16
    }

    /// The code-length code is a canonical prefix code, complete unless it has a single symbol,
    /// and its lengths are sent in the fixed order, with the trailing zeros left out down to
    /// the minimum of four.
    pub open spec fn cl_order_ok(&self) -> bool {
        &&& valid_lengths(self.cl_table.lengths@)
        &&& self.cl_table.canonical()
        &&& crate::encoder_state::complete_or_single(self.cl_table.lengths@)
        &&& (self.cl_ordered@.len() == 4 || self.cl_ordered@.last() != 0)
        &&& forall|j: int|
            0 <= j < self.rle@.len() ==> self.cl_table.lengths@[(#[trigger] self.rle@[j]).0 as int] > 0
        &&& forall|i: int|
            0 <= i < self.cl_ordered@.len() ==> #[trigger] self.cl_ordered@[i]
                == self.cl_table.lengths@[cl_order(i)]
        &&& forall|i: int|
            self.cl_ordered@.len() <= i < 19 ==> #[trigger] self.cl_table.lengths@[cl_order(i)] == 0
    }

    /// The bits of the header: HLIT, HDIST, HCLEN, the code-length code's lengths, and the
    /// run-length coded lengths.
    pub open spec fn header_bits(&self) -> Seq<bool> {
        bits_of((self.num_lit - 257) as u32, 5) + bits_of((self.num_dist - 1) as u32, 5) + bits_of(
            (self.cl_ordered@.len() - 4) as u32,
            4,
        ) + cl_bits(self.cl_ordered@) + rle_bits(self.cl_table, self.rle@)
    }

    /// Run-length codes both lists of lengths and derives the code-length code; `None` where
    /// that code cannot be a prefix code.
    pub fn prepare(ll: &Vec<u8>, dl: &Vec<u8>) -> (r: Option<DynamicHeader>)
        requires
            257 <= ll@.len() <= 286,
            1 <= dl@.len() <= 30,
            forall|i: int| 0 <= i < ll@.len() ==> #[trigger] ll@[i] <= 15,
            forall|i: int| 0 <= i < dl@.len() ==> #[trigger] dl@[i] <= 15,
        ensures
            r is Some,
            r matches Some(h) ==> h.wf() && h.num_lit == ll@.len() && h.num_dist == dl@.len()
                && rle_expand(h.rle@) == ll@ + dl@ && h.cl_order_ok(),
    {
        let mut all: Vec<u8> = Vec::new();
        let mut i: usize = 0;
        while i < ll.len()
            invariant
                i <= ll@.len(),
                all@ == ll@.take(i as int),
            decreases ll@.len() - i,
        {
            all.push(ll[i]);
            i = i + 1;
            assert(all@ =~= ll@.take(i as int));
        }
        let mut i: usize = 0;
        while i < dl.len()
            invariant
                i <= dl@.len(),
                all@ == ll@ + dl@.take(i as int),
            decreases dl@.len() - i,
        {
            all.push(dl[i]);
            i = i + 1;
            assert(all@ =~= ll@ + dl@.take(i as int));
        }
        assert(ll@.take(ll@.len() as int) =~= ll@);
        assert(all@ =~= ll@ + dl@);
        assert forall|k: int| 0 <= k < all@.len() implies #[trigger] all@[k] <= 15 by {
            if k < ll@.len() {
                assert(all@[k] == ll@[k]);
            } else {
                assert(all@[k] == dl@[k - ll@.len()]);
            }
        }
        let rle = rle_encode(&all);
        let mut freqs: Vec<u32> = vec![0u32; 19];
        let mut j: usize = 0;
        while j < rle.len()
            invariant
                j <= rle@.len() <= 320,
                freqs@.len() == 19,
                forall|k: int| 0 <= k < rle@.len() ==> #[trigger] rle_ok(rle@[k]),
                forall|k: int| 0 <= k < 19 ==> #[trigger] freqs@[k] <= j,
                forall|k: int| 0 <= k < j ==> freqs@[(#[trigger] rle@[k]).0 as int] > 0,
            decreases rle@.len() - j,
        {
            assert(rle_ok(rle@[j as int]));
            let s = rle[j].0 as usize;
            let c = freqs[s];
            let ghost f0 = freqs@;
            freqs.set(s, c + 1);
            assert forall|k: int| 0 <= k < j + 1 implies freqs@[(#[trigger] rle@[k]).0 as int] > 0 by {
                assert(rle_ok(rle@[k]));
                if k < j {
                    assert(f0[rle@[k].0 as int] > 0);
                }
            }
            j = j + 1;
        }
        proof {
            lemma2_to64();
        }
        let cl_lengths = huffman_lengths_from_frequency(&freqs, MAX_CODE_LENGTH_LENGTH);
        let mut ordered: Vec<u8> = Vec::new();
        let mut k: usize = 0;
        while k < 19
            invariant
                k <= 19,
                cl_lengths@.len() == 19,
                ordered@.len() == k,
                forall|i: int| 0 <= i < 19 ==> #[trigger] cl_lengths@[i] <= 7,
                forall|i: int| 0 <= i < k ==> #[trigger] ordered@[i] <= 7,
                forall|i: int| 0 <= i < k ==> #[trigger] ordered@[i] == cl_lengths@[cl_order(i)],
            decreases 19 - k,
        {
            ordered.push(cl_lengths[cl_order_of(k)]);
            k = k + 1;
        }
        while ordered.len() > 4 && ordered[ordered.len() - 1] == 0
            invariant
                4 <= ordered@.len() <= 19,
                cl_lengths@.len() == 19,
                forall|i: int| 0 <= i < ordered@.len() ==> #[trigger] ordered@[i] <= 7,
                forall|i: int| 0 <= i < ordered@.len() ==> #[trigger] ordered@[i] == cl_lengths@[cl_order(i)],
                forall|i: int| ordered@.len() <= i < 19 ==> #[trigger] cl_lengths@[cl_order(i)] == 0,
            decreases ordered@.len(),
        {
            ordered.pop();
        }
        let ghost cls = cl_lengths@;
        proof {
            if crate::encoder_state::two_codes(cls) {
                let (x, y) = choose|x: int, y: int| 0 <= x < y < cls.len() && cls[x] > 0 && cls[y] > 0;
                assert(freqs@[x] > 0 && freqs@[y] > 0);
                assert(!crate::length_limit::lone_symbol(freqs@));
            }
        }
        assert forall|j: int| 0 <= j < rle@.len() implies cls[(#[trigger] rle@[j]).0 as int] > 0 by {
            assert(rle_ok(rle@[j]));
            assert(freqs@[rle@[j].0 as int] > 0);
        }
        match HuffmanTable::from_lengths(cl_lengths) {
            Some(cl_table) => {
                Some(
                    DynamicHeader {
                        num_lit: ll.len(),
                        num_dist: dl.len(),
                        rle,
                        cl_table,
                        cl_ordered: ordered,
                    },
                )
            },
            None => None,
        }
    }

    /// Writes the header.
    pub fn write(&self, writer: &mut BitWriter)
        requires
            self.wf(),
            old(writer).wf(),
        ensures
            final(writer).wf(),
            final(writer).bits() == old(writer).bits() + self.header_bits(),
    {
        proof {
            lemma2_to64();
        }
        writer.write_bits((self.num_lit - 257) as u32, 5);
        writer.write_bits((self.num_dist - 1) as u32, 5);
        writer.write_bits((self.cl_ordered.len() - 4) as u32, 4);
        let ghost w0 = writer.bits();
        let mut k: usize = 0;
        while k < self.cl_ordered.len()
            invariant
                self.wf(),
                writer.wf(),
                k <= self.cl_ordered@.len(),
                writer.bits() == w0 + cl_bits(self.cl_ordered@.take(k as int)),
            decreases self.cl_ordered@.len() - k,
        {
            proof {
                lemma2_to64();
                assert(self.cl_ordered@.take(k + 1).drop_last() =~= self.cl_ordered@.take(k as int));
            }
            writer.write_bits(self.cl_ordered[k] as u32, 3);
            k = k + 1;
        }
        assert(self.cl_ordered@.take(k as int) =~= self.cl_ordered@);
        let ghost w1 = writer.bits();
        let mut j: usize = 0;
        while j < self.rle.len()
            invariant
                self.wf(),
                writer.wf(),
                j <= self.rle@.len(),
                writer.bits() == w1 + rle_bits(self.cl_table, self.rle@.take(j as int)),
            decreases self.rle@.len() - j,
        {
            let (s, e) = self.rle[j];
            assert(rle_ok(self.rle@[j as int]));
            proof {
                lemma2_to64();
                assert(self.rle@.take(j + 1).drop_last() =~= self.rle@.take(j as int));
            }
            let l = self.cl_table.lengths[s as usize];
            let c = self.cl_table.codes[s as usize];
            writer.write_bits(c, l as u32);
            let nb: u32 = if s == 16 {
                2
            } else if s == 17 {
                3
            } else if s == 18 {
                7
            } else {
                0
            };
            writer.write_bits(e as u32, nb);
            j = j + 1;
        }
        assert(self.rle@.take(j as int) =~= self.rle@);
    }
}

/// The code-length code's lengths, three bits each.
pub open spec fn cl_bits(ls: Seq<u8>) -> Seq<bool>
    decreases ls.len(),
{
    if ls.len() == 0 {
        Seq::empty()
    } else {
        cl_bits(ls.drop_last()) + bits_of(ls.last() as u32, 3)
    }
}

} // verus!
