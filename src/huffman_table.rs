//! Canonical Huffman codes built from code lengths, stored bit-reversed for LSB-first
//! emission, and the fixed code of DEFLATE.
use vstd::prelude::*;
use vstd::arithmetic::power2::{pow2, lemma2_to64, lemma_pow2_unfold, lemma_pow2_strictly_increases};
use vstd::bits::lemma_u32_shr_is_div;
use crate::bitstream::bits_of;

verus! {

/// The longest code of the literal/length and distance alphabets.
pub const MAX_CODE_LENGTH: usize = 15;

/// The `n` low bits of `x`, most significant first: the order in which DEFLATE sends a
/// Huffman code.
pub open spec fn msb_bits(x: u32, n: nat) -> Seq<bool> {
    Seq::new(n, |i: int| (x >> ((n - 1 - i) as u32)) & 1u32 == 1u32)
}

proof fn lemma_rev_step(r: u32, code: u32, i: u32, j: u32)
    requires
        i < 16,
        j <= i,
        r >> i == 0,
    ensures
        ((r << 1u32) | ((code >> i) & 1u32)) >> ((i + 1) as u32) == 0,
        j == 0 ==> ((((r << 1u32) | ((code >> i) & 1u32)) >> j) & 1u32) == (code >> i) & 1u32,
        j > 0 ==> ((((r << 1u32) | ((code >> i) & 1u32)) >> j) & 1u32) == (r >> ((j - 1) as u32))
            & 1u32,
{
    assert(((r << 1u32) | ((code >> i) & 1u32)) >> ((i + 1) as u32) == 0) by (bit_vector)
        requires
            i < 16,
            r >> i == 0,
    ;
    assert(j == 0 ==> ((((r << 1u32) | ((code >> i) & 1u32)) >> j) & 1u32) == (code >> i) & 1u32)
        by (bit_vector);
    assert(j > 0 ==> ((((r << 1u32) | ((code >> i) & 1u32)) >> j) & 1u32) == (r >> ((j
        - 1) as u32)) & 1u32) by (bit_vector)
        requires
            i < 16,
            j <= i,
    ;
}

/// Reverses the `len` low bits of `code`.
pub fn reverse_bits(code: u32, len: u32) -> (r: u32)
    requires
        len <= 16,
    ensures
        (r as nat) < pow2(len as nat),
        bits_of(r, len as nat) == msb_bits(code, len as nat),
{
    let mut r: u32 = 0;
    let mut i: u32 = 0;
    assert(0u32 >> 0u32 == 0) by (bit_vector);
    while i < len
        invariant
            i <= len <= 16,
            r >> i == 0,
            forall|j: u32| j < i ==> #[trigger] ((r >> j) & 1u32) == (code >> ((i - 1 - j) as u32)) & 1u32,
        decreases len - i,
    {
        let b = (code >> i) & 1;
        let ghost r0 = r;
        proof {
            assert forall|j: u32| j < i + 1 implies #[trigger] ((((r0 << 1u32) | b) >> j) & 1u32) == (
            code >> ((i - j) as u32)) & 1u32 by {
                lemma_rev_step(r0, code, i, j);
                if j > 0 {
                    assert((r0 >> ((j - 1) as u32)) & 1u32 == (code >> ((i - 1 - (j - 1)) as u32)) & 1u32);
                }
            }
            lemma_rev_step(r0, code, i, 0);
        }
        r = (r << 1) | b;
        i = i + 1;
    }
    proof {
        lemma_u32_shr_is_div(r, len);
        lemma_u32_pow2_bound(r, len);
        assert forall|k: int| 0 <= k < len implies bits_of(r, len as nat)[k] == msb_bits(
            code,
            len as nat,
        )[k] by {
            let j = k as u32;
            assert(((r >> j) & 1u32) == (code >> ((len - 1 - j) as u32)) & 1u32);
        }
        assert(bits_of(r, len as nat) =~= msb_bits(code, len as nat));
    }
    r
}

proof fn lemma_u32_pow2_bound(r: u32, len: u32)
    requires
        len <= 16,
        r >> len == 0,
        (r >> len) == r as nat / pow2(len as nat),
    ensures
        (r as nat) < pow2(len as nat),
{
    lemma2_to64();
    assert(pow2(len as nat) > 0) by {
        vstd::arithmetic::power2::lemma_pow2_pos(len as nat);
    }
    assert((r as nat) < pow2(len as nat)) by (nonlinear_arith)
        requires
            r as nat / pow2(len as nat) == 0,
            pow2(len as nat) > 0,
    ;
}

/// The share of the code space that a code of length `l` takes, in units of 2^-15.
pub open spec fn kraft_term(l: u8) -> nat {
    if l == 0 || l > 15 {
        0
    } else {
        pow2((15 - l) as nat)
    }
}

/// The Kraft sum of a list of code lengths, in units of 2^-15.
pub open spec fn kraft_sum(ls: Seq<u8>) -> nat
    decreases ls.len(),
{
    if ls.len() == 0 {
        0
    } else {
        kraft_sum(ls.drop_last()) + kraft_term(ls.last())
    }
}

/// How many of the first `upto` lengths equal `l`.
pub open spec fn count_len(ls: Seq<u8>, l: int, upto: int) -> nat
    decreases upto,
{
    if upto <= 0 {
        0
    } else {
        count_len(ls, l, upto - 1) + if ls[upto - 1] == l {
            1nat
        } else {
            0nat
        }
    }
}

/// The first canonical code of length `bits`: each length starts where the previous one
/// ended, shifted one bit left.
pub open spec fn first_code(ls: Seq<u8>, bits: nat) -> nat
    decreases bits,
{
    if bits == 0 {
        0
    } else {
        (first_code(ls, (bits - 1) as nat) + if bits == 1 {
            0
        } else {
            count_len(ls, bits - 1, ls.len() as int)
        }) * 2
    }
}

/// The canonical code of symbol `s`: the next code of its length, in symbol order.
pub open spec fn canonical_code(ls: Seq<u8>, s: int) -> nat {
    first_code(ls, ls[s] as nat) + count_len(ls, ls[s] as int, s)
}

/// Lengths that a prefix code can have: none over 15, and the Kraft inequality holds.
pub open spec fn valid_lengths(ls: Seq<u8>) -> bool {
    (forall|i: int| 0 <= i < ls.len() ==> ls[i] <= 15) && kraft_sum(ls) <= pow2(15)
}

fn kraft_weight(l: u8) -> (r: u64)
    requires
        1 <= l <= 15,
    ensures
        r == kraft_term(l),
        r <= 16384,
{
    let mut r: u64 = 1;
    let mut i: u8 = 0;
    proof {
        lemma2_to64();
    }
    while i < 15 - l
        invariant
            i <= 15 - l,
            1 <= l <= 15,
            r == pow2(i as nat),
            r <= 16384,
        decreases 15 - l - i,
    {
        proof {
            lemma2_to64();
            lemma_pow2_unfold((i + 1) as nat);
            if i + 1 < 14 {
                lemma_pow2_strictly_increases((i + 1) as nat, 14);
            }
        }
        r = r * 2;
        i = i + 1;
    }
    r
}

/// The Kraft sum of lengths of at most 15, in units of 2^-15.
pub fn kraft_total(lengths: &Vec<u8>) -> (r: u64)
    requires
        lengths@.len() <= 320,
        forall|i: int| 0 <= i < lengths@.len() ==> lengths@[i] <= 15,
    ensures
        r == kraft_sum(lengths@),
{
    let n = lengths.len();
    let mut sum: u64 = 0;
    let mut i: usize = 0;
    while i < n
        invariant
            i <= n == lengths@.len() <= 320,
            forall|j: int| 0 <= j < n ==> lengths@[j] <= 15,
            sum == kraft_sum(lengths@.take(i as int)),
            sum <= 16384 * i,
        decreases n - i,
    {
        let l = lengths[i];
        assert(lengths@.take(i + 1).drop_last() =~= lengths@.take(i as int));
        if l > 0 {
            sum = sum + kraft_weight(l);
        }
        i = i + 1;
    }
    assert(lengths@.take(n as int) =~= lengths@);
    sum
}

/// Whether the lengths can be those of a prefix code.
pub fn lengths_valid(lengths: &Vec<u8>) -> (r: bool)
    requires
        lengths@.len() <= 320,
    ensures
        r == valid_lengths(lengths@),
{
    let n = lengths.len();
    let mut sum: u64 = 0;
    let mut i: usize = 0;
    while i < n
        invariant
            i <= n == lengths@.len() <= 320,
            sum == kraft_sum(lengths@.take(i as int)),
            sum <= 16384 * i,
            forall|j: int| 0 <= j < i ==> lengths@[j] <= 15,
        decreases n - i,
    {
        let l = lengths[i];
        if l > 15 {
            assert(!valid_lengths(lengths@));
            return false;
        }
        assert(lengths@.take(i + 1).drop_last() =~= lengths@.take(i as int));
        if l > 0 {
            sum = sum + kraft_weight(l);
        }
        i = i + 1;
    }
    assert(lengths@.take(n as int) =~= lengths@);
    proof {
        lemma2_to64();
    }
    sum <= 32768
}

/// Code lengths with their codes, each stored bit-reversed so that writing it LSB-first sends
/// the code MSB-first.
pub struct HuffmanTable {
    pub codes: Vec<u32>,
    pub lengths: Vec<u8>,
}

impl HuffmanTable {
    pub open spec fn wf(&self) -> bool {
        &&& self.codes@.len() == self.lengths@.len()
        &&& forall|i: int|
            0 <= i < self.lengths@.len() ==> #[trigger] self.lengths@[i] <= 15 && (
            self.codes@[i] as nat) < pow2(self.lengths@[i] as nat)
    }

    /// Each symbol with a non-zero length has its canonical code, bit-reversed.
    pub open spec fn canonical(&self) -> bool {
        forall|s: int|
            0 <= s < self.lengths@.len() && self.lengths@[s] > 0 ==> #[trigger] bits_of(
                self.codes@[s],
                self.lengths@[s] as nat,
            ) == msb_bits(canonical_code(self.lengths@, s) as u32, self.lengths@[s] as nat)
    }

    /// The bits that send symbol `s`.
    pub open spec fn sym_bits(&self, s: int) -> Seq<bool> {
        bits_of(self.codes@[s], self.lengths@[s] as nat)
    }

    /// The canonical code of the given lengths; `None` where they exceed 15 or break the
    /// Kraft inequality.
    pub fn from_lengths(lengths: Vec<u8>) -> (r: Option<HuffmanTable>)
        requires
            lengths@.len() <= 320,
        ensures
            r is Some <==> valid_lengths(lengths@),
            r matches Some(t) ==> t.wf() && t.lengths@ == lengths@ && t.canonical(),
    {
        let n = lengths.len();
        if !lengths_valid(&lengths) {
            return None;
        }
        proof {
            lemma2_to64();
        }
        let mut bl_count: Vec<u64> = vec![0u64; 16];
        let mut i: usize = 0;
        while i < n
            invariant
                i <= n == lengths@.len() <= 320,
                bl_count@.len() == 16,
                forall|j: int| 0 <= j < n ==> lengths@[j] <= 15,
                forall|j: int| 0 <= j < 16 ==> #[trigger] bl_count@[j] <= i,
                forall|j: int| 0 <= j < 16 ==> #[trigger] bl_count@[j] == count_len(lengths@, j, i as int),
            decreases n - i,
        {
            let l = lengths[i] as usize;
            let c = bl_count[l];
            bl_count.set(l, c + 1);
            i = i + 1;
        }
        bl_count.set(0, 0);
        let mut next_code: Vec<u64> = vec![0u64; 16];
        let mut code: u64 = 0;
        let mut lim: u64 = 1;
        let mut bits: usize = 1;
        proof {
            lemma2_to64();
        }
        while bits <= 15
            invariant
                1 <= bits <= 16,
                bl_count@.len() == 16,
                next_code@.len() == 16,
                forall|j: int| 0 <= j < 16 ==> #[trigger] bl_count@[j] <= 320,
                forall|j: int| 0 <= j < 16 ==> #[trigger] next_code@[j] <= 1000 * 32768,
                lim == pow2((bits - 1) as nat),
                lim <= 32768,
                code + 1000 <= 1000 * lim,
                n == lengths@.len(),
                bl_count@[0] == 0,
                forall|j: int| 1 <= j < 16 ==> #[trigger] bl_count@[j] == count_len(lengths@, j, n as int),
                code == first_code(lengths@, (bits - 1) as nat),
                forall|b: int| 1 <= b < bits ==> #[trigger] next_code@[b] == first_code(lengths@, b as nat),
            decreases 16 - bits,
        {
            proof {
                lemma2_to64();
                lemma_pow2_unfold(bits as nat);
                if bits < 15 {
                    lemma_pow2_strictly_increases(bits as nat, 15);
                }
            }
            code = (code + bl_count[bits - 1]) * 2;
            next_code.set(bits, code);
            lim = lim * 2;
            bits = bits + 1;
        }
        let mut codes: Vec<u32> = Vec::new();
        let mut i: usize = 0;
        while i < n
            invariant
                i <= n == lengths@.len() <= 320,
                codes@.len() == i,
                next_code@.len() == 16,
                forall|j: int| 0 <= j < n ==> lengths@[j] <= 15,
                forall|j: int| 0 <= j < 16 ==> #[trigger] next_code@[j] <= 1000 * 32768 + i,
                forall|j: int|
                    0 <= j < i ==> (#[trigger] codes@[j] as nat) < pow2(lengths@[j] as nat),
                forall|l: int|
                    1 <= l < 16 ==> #[trigger] next_code@[l] == first_code(lengths@, l as nat)
                        + count_len(lengths@, l, i as int),
                forall|j: int|
                    0 <= j < i && lengths@[j] > 0 ==> #[trigger] bits_of(codes@[j], lengths@[j] as nat)
                        == msb_bits(canonical_code(lengths@, j) as u32, lengths@[j] as nat),
            decreases n - i,
        {
            let l = lengths[i] as usize;
            let c = next_code[l];
            let rev = reverse_bits(c as u32, l as u32);
            if l > 0 {
                next_code.set(l, c + 1);
            }
            codes.push(rev);
            i = i + 1;
        }
        let ghost ls = lengths@;
        let t = HuffmanTable { codes, lengths };
        assert(t.lengths@ =~= ls);
        assert(t.canonical());
        Some(t)
    }
}

/// The length of literal/length symbol `i` in the fixed code.
pub open spec fn fixed_lit_length(i: int) -> u8 {
    if i < 144 {
        8
    } else if i < 256 {
        9
    } else if i < 280 {
        7
    } else {
        8
    }
}

/// The code lengths of the fixed literal/length code.
pub fn fixed_lit_lengths() -> (r: Vec<u8>)
    ensures
        r@.len() == 288,
        forall|i: int| 0 <= i < 288 ==> #[trigger] r@[i] == fixed_lit_length(i),
{
    let mut r: Vec<u8> = Vec::new();
    let mut i: usize = 0;
    while i < 288
        invariant
            i <= 288,
            r@.len() == i,
            forall|k: int| 0 <= k < i ==> #[trigger] r@[k] == fixed_lit_length(k),
        decreases 288 - i,
    {
        let l: u8 = if i < 144 {
            8
        } else if i < 256 {
            9
        } else if i < 280 {
            7
        } else {
            8
        };
        r.push(l);
        i = i + 1;
    }
    r
}

/// The code lengths of the fixed distance code: five bits for each of the 30 distance symbols.
pub fn fixed_dist_lengths() -> (r: Vec<u8>)
    ensures
        r@.len() == 30,
        forall|i: int| 0 <= i < 30 ==> #[trigger] r@[i] == 5,
{
    let r = vec![5u8; 30];
    assert forall|i: int| 0 <= i < 30 implies #[trigger] r@[i] == 5 by {
        assert(cloned(5u8, r@[i]));
    }
    r
}

/// `n` copies of the length `c`.
pub open spec fn run(n: nat, c: u8) -> Seq<u8> {
    Seq::new(n, |i: int| c)
}

proof fn lemma_kraft_run(s: Seq<u8>, n: nat, c: u8)
    ensures
        kraft_sum(s + run(n, c)) == kraft_sum(s) + n * kraft_term(c),
    decreases n,
{
    if n == 0 {
        assert(s + run(0, c) =~= s);
    } else {
        lemma_kraft_run(s, (n - 1) as nat, c);
        assert((s + run(n, c)).drop_last() =~= s + run((n - 1) as nat, c));
        assert((s + run(n, c)).last() == c);
        assert(kraft_sum(s) + (n - 1) * kraft_term(c) + kraft_term(c) == kraft_sum(s) + n * kraft_term(c))
            by (nonlinear_arith);
    }
}

/// The fixed literal/length and distance codes of DEFLATE.
pub fn fixed_tables() -> (r: (HuffmanTable, HuffmanTable))
    ensures
        r.0.wf(),
        r.1.wf(),
        r.0.lengths@.len() == 288,
        r.1.lengths@.len() == 30,
        forall|i: int| 0 <= i < 288 ==> #[trigger] r.0.lengths@[i] == fixed_lit_length(i),
        forall|i: int| 0 <= i < 30 ==> #[trigger] r.1.lengths@[i] == 5,
        valid_lengths(r.0.lengths@),
        valid_lengths(r.1.lengths@),
        r.0.canonical(),
        r.1.canonical(),
{
    let ll = fixed_lit_lengths();
    let dl = fixed_dist_lengths();
    proof {
        lemma2_to64();
        let e = Seq::<u8>::empty();
        assert(ll@ =~= e + run(144, 8) + run(112, 9) + run(24, 7) + run(8, 8));
        lemma_kraft_run(e, 144, 8);
        lemma_kraft_run(e + run(144, 8), 112, 9);
        lemma_kraft_run(e + run(144, 8) + run(112, 9), 24, 7);
        lemma_kraft_run(e + run(144, 8) + run(112, 9) + run(24, 7), 8, 8);
        assert(kraft_sum(e) == 0);
        assert(dl@ =~= e + run(30, 5));
        lemma_kraft_run(e, 30, 5);
    }
    let lt = HuffmanTable::from_lengths(ll).unwrap();
    let dt = HuffmanTable::from_lengths(dl).unwrap();
    (lt, dt)
}

} // verus!
