//! An LSB-first bit writer that packs bit fields into bytes.
use vstd::prelude::*;
use vstd::arithmetic::power2::pow2;
use vstd::bits::lemma_u32_shr_is_div;

verus! {

/// The `n` low bits of `x`, least significant first.
pub open spec fn bits_of(x: u32, n: nat) -> Seq<bool> {
    Seq::new(n, |i: int| (x >> (i as u32)) & 1u32 == 1u32)
}

/// The eight bits of a byte, least significant first.
pub open spec fn byte_bits(b: u8) -> Seq<bool> {
    bits_of(b as u32, 8)
}

/// The bits of a byte sequence in transmission order.
pub open spec fn bytes_bits(bs: Seq<u8>) -> Seq<bool>
    decreases bs.len(),
{
    if bs.len() == 0 {
        Seq::empty()
    } else {
        bytes_bits(bs.drop_last()) + byte_bits(bs.last())
    }
}

/// `n` zero bits.
pub open spec fn zeros(n: nat) -> Seq<bool> {
    Seq::new(n, |i: int| false)
}

pub proof fn lemma_bytes_bits_push(bs: Seq<u8>, b: u8)
    ensures
        bytes_bits(bs.push(b)) == bytes_bits(bs) + byte_bits(b),
{
    assert(bs.push(b).drop_last() =~= bs);
}

pub proof fn lemma_bytes_bits_len(bs: Seq<u8>)
    ensures
        bytes_bits(bs).len() == 8 * bs.len(),
    decreases bs.len(),
{
    if bs.len() > 0 {
        lemma_bytes_bits_len(bs.drop_last());
    }
}

proof fn lemma_byte_bits_injective(a: u8, b: u8)
    requires
        byte_bits(a) == byte_bits(b),
    ensures
        a == b,
{
    let x = a as u32;
    let y = b as u32;
    assert(byte_bits(a)[0] == byte_bits(b)[0]);
    assert(byte_bits(a)[0] == ((x >> 0u32) & 1u32 == 1u32));
    assert(byte_bits(b)[0] == ((y >> 0u32) & 1u32 == 1u32));
    assert(byte_bits(a)[1] == byte_bits(b)[1]);
    assert(byte_bits(a)[1] == ((x >> 1u32) & 1u32 == 1u32));
    assert(byte_bits(b)[1] == ((y >> 1u32) & 1u32 == 1u32));
    assert(byte_bits(a)[2] == byte_bits(b)[2]);
    assert(byte_bits(a)[2] == ((x >> 2u32) & 1u32 == 1u32));
    assert(byte_bits(b)[2] == ((y >> 2u32) & 1u32 == 1u32));
    assert(byte_bits(a)[3] == byte_bits(b)[3]);
    assert(byte_bits(a)[3] == ((x >> 3u32) & 1u32 == 1u32));
    assert(byte_bits(b)[3] == ((y >> 3u32) & 1u32 == 1u32));
    assert(byte_bits(a)[4] == byte_bits(b)[4]);
    assert(byte_bits(a)[4] == ((x >> 4u32) & 1u32 == 1u32));
    assert(byte_bits(b)[4] == ((y >> 4u32) & 1u32 == 1u32));
    assert(byte_bits(a)[5] == byte_bits(b)[5]);
    assert(byte_bits(a)[5] == ((x >> 5u32) & 1u32 == 1u32));
    assert(byte_bits(b)[5] == ((y >> 5u32) & 1u32 == 1u32));
    assert(byte_bits(a)[6] == byte_bits(b)[6]);
    assert(byte_bits(a)[6] == ((x >> 6u32) & 1u32 == 1u32));
    assert(byte_bits(b)[6] == ((y >> 6u32) & 1u32 == 1u32));
    assert(byte_bits(a)[7] == byte_bits(b)[7]);
    assert(byte_bits(a)[7] == ((x >> 7u32) & 1u32 == 1u32));
    assert(byte_bits(b)[7] == ((y >> 7u32) & 1u32 == 1u32));
    assert(x == y) by (bit_vector)
        requires
            x < 256,
            y < 256,
            ((x >> 0u32) & 1u32 == 1u32) == ((y >> 0u32) & 1u32 == 1u32),
            ((x >> 1u32) & 1u32 == 1u32) == ((y >> 1u32) & 1u32 == 1u32),
            ((x >> 2u32) & 1u32 == 1u32) == ((y >> 2u32) & 1u32 == 1u32),
            ((x >> 3u32) & 1u32 == 1u32) == ((y >> 3u32) & 1u32 == 1u32),
            ((x >> 4u32) & 1u32 == 1u32) == ((y >> 4u32) & 1u32 == 1u32),
            ((x >> 5u32) & 1u32 == 1u32) == ((y >> 5u32) & 1u32 == 1u32),
            ((x >> 6u32) & 1u32 == 1u32) == ((y >> 6u32) & 1u32 == 1u32),
            ((x >> 7u32) & 1u32 == 1u32) == ((y >> 7u32) & 1u32 == 1u32),
    ;
}

/// Bytes are determined by their bits.
pub proof fn lemma_bytes_bits_injective(a: Seq<u8>, b: Seq<u8>)
    requires
        bytes_bits(a) == bytes_bits(b),
    ensures
        a == b,
    decreases a.len(),
{
    lemma_bytes_bits_len(a);
    lemma_bytes_bits_len(b);
    if a.len() == 0 {
        assert(a =~= b);
    } else {
        let pa = bytes_bits(a.drop_last());
        let pb = bytes_bits(b.drop_last());
        lemma_bytes_bits_len(a.drop_last());
        lemma_bytes_bits_len(b.drop_last());
        let n = pa.len() as int;
        assert(bytes_bits(a).subrange(0, n) =~= pa);
        assert(bytes_bits(b).subrange(0, n) =~= pb);
        assert(bytes_bits(a).subrange(n, n + 8) =~= byte_bits(a.last()));
        assert(bytes_bits(b).subrange(n, n + 8) =~= byte_bits(b.last()));
        lemma_bytes_bits_injective(a.drop_last(), b.drop_last());
        lemma_byte_bits_injective(a.last(), b.last());
        assert(a =~= a.drop_last().push(a.last()));
        assert(b =~= b.drop_last().push(b.last()));
    }
}

proof fn lemma_bits_concat(x: u32, k: u32, v: u32, n: u32)
    requires
        k + n <= 24,
        x >> k == 0,
        v >> n == 0,
    ensures
        bits_of(x | (v << k), (k + n) as nat) =~= bits_of(x, k as nat) + bits_of(v, n as nat),
{
    assert forall|i: u32| i < k implies ((x | (v << k)) >> i) & 1u32 == (x >> i) & 1u32 by {
        assert(((x | (v << k)) >> i) & 1u32 == (x >> i) & 1u32) by (bit_vector)
            requires
                i < k,
                k + n <= 24,
                v >> n == 0,
        ;
    }
    assert forall|i: u32| k <= i < k + n implies ((x | (v << k)) >> i) & 1u32 == (v >> ((i
        - k) as u32)) & 1u32 by {
        assert(((x | (v << k)) >> i) & 1u32 == (v >> ((i - k) as u32)) & 1u32) by (bit_vector)
            requires
                k <= i < k + n,
                k + n <= 24,
                x >> k == 0,
        ;
    }
    let lhs = bits_of(x | (v << k), (k + n) as nat);
    let rhs = bits_of(x, k as nat) + bits_of(v, n as nat);
    assert forall|j: int| 0 <= j < lhs.len() implies lhs[j] == rhs[j] by {
        let i = j as u32;
        if j < k {
        } else {
            assert(((i - k) as u32) as int == j - k);
        }
    }
}

proof fn lemma_bits_split(acc: u32, nb: u32)
    requires
        8 <= nb <= 24,
    ensures
        bits_of(acc, nb as nat) =~= byte_bits((acc & 0xffu32) as u8) + bits_of(acc >> 8u32, (nb
            - 8) as nat),
{
    assert((acc & 0xffu32) < 256) by (bit_vector);
    assert forall|i: u32| i < 8 implies ((acc & 0xffu32) >> i) & 1u32 == (acc >> i) & 1u32 by {
        assert(((acc & 0xffu32) >> i) & 1u32 == (acc >> i) & 1u32) by (bit_vector)
            requires
                i < 8,
        ;
    }
    assert forall|i: u32| 8 <= i < 32 implies ((acc >> 8u32) >> ((i - 8) as u32)) & 1u32 == (acc
        >> i) & 1u32 by {
        assert(((acc >> 8u32) >> ((i - 8) as u32)) & 1u32 == (acc >> i) & 1u32) by (bit_vector)
            requires
                8 <= i < 32,
        ;
    }
    let lhs = bits_of(acc, nb as nat);
    let rhs = byte_bits((acc & 0xffu32) as u8) + bits_of(acc >> 8u32, (nb - 8) as nat);
    assert forall|j: int| 0 <= j < lhs.len() implies lhs[j] == rhs[j] by {
        let i = j as u32;
        if j < 8 {
        } else {
            assert(((i - 8) as u32) as int == j - 8);
        }
    }
}

proof fn lemma_bits_pad(acc: u32, nb: u32)
    requires
        nb <= 8,
        acc >> nb == 0,
    ensures
        bits_of(acc, 8) =~= bits_of(acc, nb as nat) + zeros((8 - nb) as nat),
{
    assert forall|i: u32| nb <= i < 8 implies (acc >> i) & 1u32 == 0u32 by {
        assert((acc >> i) & 1u32 == 0u32) by (bit_vector)
            requires
                nb <= i < 8,
                acc >> nb == 0,
        ;
    }
    let lhs = bits_of(acc, 8);
    let rhs = bits_of(acc, nb as nat) + zeros((8 - nb) as nat);
    assert forall|j: int| 0 <= j < 8 implies lhs[j] == rhs[j] by {
        let i = j as u32;
    }
}

proof fn lemma_or_bound(acc: u32, k: u32, v: u32, n: u32)
    requires
        k < 8,
        n <= 16,
        acc >> k == 0,
        v >> n == 0,
    ensures
        (acc | (v << k)) >> ((k + n) as u32) == 0,
{
    assert((acc | (v << k)) >> ((k + n) as u32) == 0) by (bit_vector)
        requires
            k < 8,
            n <= 16,
            acc >> k == 0,
            v >> n == 0,
    ;
}

proof fn lemma_shift_bound(acc: u32, nb: u32)
    requires
        8 <= nb <= 24,
        acc >> nb == 0,
    ensures
        (acc >> 8u32) >> ((nb - 8) as u32) == 0,
{
    assert((acc >> 8u32) >> ((nb - 8) as u32) == 0) by (bit_vector)
        requires
            8 <= nb <= 24,
            acc >> nb == 0,
    ;
}

proof fn lemma_byte_bound(acc: u32, nb: u32)
    requires
        nb < 8,
        acc >> nb == 0,
    ensures
        acc < 256,
{
    assert(acc < 256) by (bit_vector)
        requires
            nb < 8,
            acc >> nb == 0,
    ;
}

/// Packs bit fields, least significant bit first, into a growing byte vector.
pub struct BitWriter {
    pub out: Vec<u8>,
    pub acc: u32,
    pub nbits: u32,
}

impl BitWriter {
    /// The accumulator holds fewer than eight pending bits, and nothing above them.
    pub open spec fn wf(&self) -> bool {
        self.nbits < 8 && self.acc >> self.nbits == 0
    }

    /// Every bit written so far, including those not yet flushed.
    pub open spec fn bits(&self) -> Seq<bool> {
        bytes_bits(self.out@) + bits_of(self.acc, self.nbits as nat)
    }

    /// The number of bits waiting for a byte boundary.
    pub open spec fn pending(&self) -> nat {
        self.nbits as nat
    }

    pub fn new() -> (r: BitWriter)
        ensures
            r.wf(),
            r.out@ == Seq::<u8>::empty(),
            r.pending() == 0,
            r.bits() == Seq::<bool>::empty(),
    {
        let r = BitWriter { out: Vec::new(), acc: 0, nbits: 0 };
        assert(0u32 >> 0u32 == 0) by (bit_vector);
        assert(r.bits() =~= Seq::<bool>::empty());
        r
    }

    /// Appends the `n` low bits of `v`, least significant first.
    pub fn write_bits(&mut self, v: u32, n: u32)
        requires
            old(self).wf(),
            n <= 16,
            (v as nat) < pow2(n as nat),
        ensures
            final(self).wf(),
            final(self).bits() == old(self).bits() + bits_of(v, n as nat),
            final(self).pending() == (old(self).pending() + n) % 8,
            old(self).out@.is_prefix_of(final(self).out@),
    {
        let ghost start = self.bits();
        proof {
            lemma_u32_shr_is_div(v, n);
            assert(v >> n == 0) by (nonlinear_arith)
                requires
                    (v >> n) == v as nat / pow2(n as nat),
                    (v as nat) < pow2(n as nat),
            ;
            lemma_bits_concat(self.acc, self.nbits, v, n);
            lemma_or_bound(self.acc, self.nbits, v, n);
        }
        self.acc = self.acc | (v << self.nbits);
        self.nbits = self.nbits + n;
        assert(self.bits() =~= start + bits_of(v, n as nat));
        while self.nbits >= 8
            invariant
                self.nbits <= 24,
                self.acc >> self.nbits == 0,
                self.bits() == start + bits_of(v, n as nat),
                self.nbits % 8 == (old(self).nbits + n) % 8,
                old(self).out@.is_prefix_of(self.out@),
            decreases self.nbits,
        {
            let ghost out0 = self.out@;
            proof {
                lemma_bits_split(self.acc, self.nbits);
                lemma_bytes_bits_push(self.out@, (self.acc & 0xffu32) as u8);
                lemma_shift_bound(self.acc, self.nbits);
            }
            self.out.push((self.acc & 0xff) as u8);
            self.acc = self.acc >> 8;
            self.nbits = self.nbits - 8;
            assert(self.bits() =~= start + bits_of(v, n as nat));
            assert(old(self).out@.is_prefix_of(self.out@)) by {
                assert(self.out@.take(out0.len() as int) =~= out0);
                assert(self.out@.take(old(self).out@.len() as int) =~= out0.take(old(self).out@.len() as int));
            }
        }
    }

    /// Pads the pending bits with zeros up to a byte boundary.
    pub fn flush(&mut self)
        requires
            old(self).wf(),
        ensures
            final(self).wf(),
            final(self).pending() == 0,
            final(self).bits() == old(self).bits() + zeros(((8 - old(self).pending()) % 8) as nat),
            final(self).bits() == bytes_bits(final(self).out@),
            old(self).out@.is_prefix_of(final(self).out@),
    {
        if self.nbits > 0 {
            proof {
                lemma_bits_pad(self.acc, self.nbits);
                lemma_byte_bound(self.acc, self.nbits);
                lemma_bytes_bits_push(self.out@, self.acc as u8);
            }
            self.out.push(self.acc as u8);
            self.acc = 0;
            self.nbits = 0;
        }
        assert(0u32 >> 0u32 == 0) by (bit_vector);
        assert(bits_of(self.acc, 0) =~= Seq::<bool>::empty());
        assert(zeros(0) =~= Seq::<bool>::empty());
        assert(self.bits() =~= bytes_bits(self.out@));
        assert(self.bits() =~= old(self).bits() + zeros(((8 - old(self).pending()) % 8) as nat));
        assert(self.out@.take(old(self).out@.len() as int) =~= old(self).out@);
    }

    /// Appends `bytes[start..end]`; the writer must be at a byte boundary.
    pub fn write_bytes(&mut self, bytes: &[u8], start: usize, end: usize)
        requires
            old(self).wf(),
            old(self).pending() == 0,
            start <= end <= bytes@.len(),
        ensures
            final(self).wf(),
            final(self).pending() == 0,
            final(self).out@ == old(self).out@ + bytes@.subrange(start as int, end as int),
    {
        let mut i: usize = start;
        while i < end
            invariant
                start <= i <= end <= bytes@.len(),
                self.nbits == 0,
                self.acc >> self.nbits == 0,
                self.out@ == old(self).out@ + bytes@.subrange(start as int, i as int),
            decreases end - i,
        {
            self.out.push(bytes[i]);
            i = i + 1;
            assert(self.out@ =~= old(self).out@ + bytes@.subrange(start as int, i as int));
        }
    }
}

} // verus!
