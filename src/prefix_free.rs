//! Canonical codes of lengths that meet the Kraft inequality form a prefix code.
use vstd::prelude::*;
use vstd::arithmetic::power2::{pow2, lemma_pow2_adds, lemma_pow2_pos};
use crate::huffman_table::{count_len, first_code, canonical_code, kraft_sum, valid_lengths};

verus! {

proof fn lemma_count_prefix(ls: Seq<u8>, l: int, k: int)
    requires
        0 <= k < ls.len(),
    ensures
        count_len(ls.drop_last(), l, k) == count_len(ls, l, k),
    decreases k,
{
    if k > 0 {
        lemma_count_prefix(ls, l, k - 1);
    }
}

proof fn lemma_count_mono(ls: Seq<u8>, l: int, s: int, t: int)
    requires
        0 <= s <= t <= ls.len(),
    ensures
        count_len(ls, l, s) <= count_len(ls, l, t),
        s < t && ls[s] == l ==> count_len(ls, l, s) < count_len(ls, l, t),
    decreases t - s,
{
    if s < t {
        lemma_count_mono(ls, l, s, t - 1);
        if ls[s] == l && s == t - 1 {
        }
    }
}

/// The code space taken by the codes of lengths 1 to `top`, in units of 2^-15.
spec fn count_sum(ls: Seq<u8>, top: int) -> int
    decreases top,
{
    if top <= 0 {
        0
    } else {
        count_sum(ls, top - 1) + count_len(ls, top, ls.len() as int) * pow2((15 - top) as nat)
    }
}

proof fn lemma_count_sum_step(ls: Seq<u8>, top: int)
    requires
        ls.len() > 0,
        0 <= top <= 15,
    ensures
        count_sum(ls, top) == count_sum(ls.drop_last(), top) + if 1 <= ls.last() <= top {
            pow2((15 - ls.last()) as nat) as int
        } else {
            0int
        },
    decreases top,
{
    if top > 0 {
        lemma_count_sum_step(ls, top - 1);
        let n = ls.len() as int;
        lemma_count_prefix(ls, top, n - 1);
        assert(ls.drop_last().len() == n - 1);
        let c = count_len(ls.drop_last(), top, n - 1) as int;
        let delta: int = if ls[n - 1] == top {
            1
        } else {
            0
        };
        assert(count_len(ls, top, n) == c + delta);
        let p = pow2((15 - top) as nat) as int;
        assert((c + delta) * p == c * p + delta * p) by (nonlinear_arith);
    }
}

proof fn lemma_kraft_counts(ls: Seq<u8>)
    requires
        forall|i: int| 0 <= i < ls.len() ==> ls[i] <= 15,
    ensures
        kraft_sum(ls) == count_sum(ls, 15),
    decreases ls.len(),
{
    if ls.len() == 0 {
        lemma_count_sum_empty(ls, 15);
    } else {
        lemma_kraft_counts(ls.drop_last());
        lemma_count_sum_step(ls, 15);
    }
}

proof fn lemma_count_sum_empty(ls: Seq<u8>, top: int)
    requires
        ls.len() == 0,
    ensures
        count_sum(ls, top) == 0,
    decreases top,
{
    if top > 0 {
        lemma_count_sum_empty(ls, top - 1);
        assert(count_len(ls, top, 0) == 0);
        assert(count_len(ls, top, ls.len() as int) * pow2((15 - top) as nat) == 0);
    }
}

proof fn lemma_count_sum_nonneg(ls: Seq<u8>, top: int, all: int)
    requires
        0 <= top <= all <= 15,
    ensures
        0 <= count_sum(ls, top) <= count_sum(ls, all),
    decreases all,
{
    if all > top {
        lemma_count_sum_nonneg(ls, top, all - 1);
        lemma_pow2_pos((15 - all) as nat);
        assert(count_len(ls, all, ls.len() as int) * pow2((15 - all) as nat) >= 0) by (nonlinear_arith)
            requires
                pow2((15 - all) as nat) > 0,
        ;
    } else if top > 0 {
        lemma_count_sum_nonneg(ls, top - 1, top - 1);
        lemma_pow2_pos((15 - top) as nat);
        assert(count_len(ls, top, ls.len() as int) * pow2((15 - top) as nat) >= 0) by (nonlinear_arith)
            requires
                pow2((15 - top) as nat) > 0,
        ;
    }
}

/// The end of the codes of length `l`: its first code plus how many codes it has.
spec fn code_end(ls: Seq<u8>, l: int) -> int {
    (first_code(ls, l as nat) + count_len(ls, l, ls.len() as int)) as int
}

proof fn lemma_code_end_weighted(ls: Seq<u8>, l: int)
    requires
        1 <= l <= 15,
    ensures
        code_end(ls, l) * pow2((15 - l) as nat) == count_sum(ls, l),
    decreases l,
{
    let p = pow2((15 - l) as nat);
    if l == 1 {
        assert(first_code(ls, 0) == 0);
        assert(first_code(ls, 1) == 0);
        assert(count_sum(ls, 0) == 0);
    } else {
        lemma_code_end_weighted(ls, l - 1);
        lemma_pow2_adds(1, (15 - l) as nat);
        assert(pow2(1) == 2) by {
            vstd::arithmetic::power2::lemma2_to64();
        }
        let q = pow2((15 - (l - 1)) as nat);
        assert(q == 2 * p);
        assert(first_code(ls, l as nat) == code_end(ls, l - 1) * 2);
        assert(code_end(ls, l) * p == code_end(ls, l - 1) * q + count_len(ls, l, ls.len() as int) * p)
            by (nonlinear_arith)
            requires
                q == 2 * p,
                code_end(ls, l) == code_end(ls, l - 1) * 2 + count_len(ls, l, ls.len() as int),
        ;
    }
}

proof fn lemma_code_end_bound(ls: Seq<u8>, l: int)
    requires
        valid_lengths(ls),
        1 <= l <= 15,
    ensures
        code_end(ls, l) <= pow2(l as nat),
{
    lemma_kraft_counts(ls);
    lemma_code_end_weighted(ls, l);
    lemma_count_sum_nonneg(ls, l, 15);
    lemma_pow2_adds(l as nat, (15 - l) as nat);
    lemma_pow2_pos((15 - l) as nat);
    let p = pow2((15 - l) as nat);
    assert(code_end(ls, l) <= pow2(l as nat)) by (nonlinear_arith)
        requires
            code_end(ls, l) * p <= pow2(15),
            pow2(15) == pow2(l as nat) * p,
            p > 0,
    ;
}

proof fn lemma_first_code_grows(ls: Seq<u8>, a: int, b: int)
    requires
        1 <= a < b <= 15,
    ensures
        first_code(ls, b as nat) >= code_end(ls, a) * pow2((b - a) as nat),
    decreases b - a,
{
    vstd::arithmetic::power2::lemma2_to64();
    if b == a + 1 {
        assert(first_code(ls, b as nat) == code_end(ls, a) * 2);
    } else {
        lemma_first_code_grows(ls, a, b - 1);
        lemma_pow2_adds(1, (b - 1 - a) as nat);
        let p = pow2((b - 1 - a) as nat);
        assert(first_code(ls, b as nat) == code_end(ls, b - 1) * 2);
        assert(first_code(ls, b as nat) >= code_end(ls, a) * pow2((b - a) as nat)) by (nonlinear_arith)
            requires
                first_code(ls, (b - 1) as nat) >= code_end(ls, a) * p,
                code_end(ls, b - 1) >= first_code(ls, (b - 1) as nat),
                first_code(ls, b as nat) == code_end(ls, b - 1) * 2,
                pow2((b - a) as nat) == 2 * p,
        ;
    }
}

/// Canonical codes of valid lengths fit their lengths, and none is a prefix of another: the
/// first `ls[s]` bits of the code of `t` differ from the code of `s`.
pub proof fn lemma_canonical_prefix_free(ls: Seq<u8>, s: int, t: int)
    requires
        valid_lengths(ls),
        0 <= s < ls.len(),
        0 <= t < ls.len(),
        s != t,
        0 < ls[s] <= ls[t],
    ensures
        canonical_code(ls, s) < pow2(ls[s] as nat),
        canonical_code(ls, t) / pow2((ls[t] - ls[s]) as nat) != canonical_code(ls, s),
{
    let a = ls[s] as int;
    let b = ls[t] as int;
    lemma_count_mono(ls, a, s, ls.len() as int);
    lemma_code_end_bound(ls, a);
    lemma_pow2_pos((b - a) as nat);
    let cs = canonical_code(ls, s);
    let ct = canonical_code(ls, t);
    if a == b {
        vstd::arithmetic::power2::lemma2_to64();
        if s < t {
            lemma_count_mono(ls, a, s, t);
        } else {
            lemma_count_mono(ls, a, t, s);
        }
        assert(pow2(0) == 1);
        assert(ct / 1 == ct);
    } else {
        lemma_first_code_grows(ls, a, b);
        let d = pow2((b - a) as nat);
        assert(ct / d >= code_end(ls, a)) by {
            assert(ct >= code_end(ls, a) * d);
            vstd::arithmetic::div_mod::lemma_div_is_ordered(code_end(ls, a) * d, ct as int, d as int);
            vstd::arithmetic::div_mod::lemma_div_multiples_vanish(code_end(ls, a), d as int);
        }
    }
}

} // verus!
