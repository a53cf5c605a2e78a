//! Code lengths from symbol frequencies: a Huffman tree built by repeated merging of the two
//! lightest nodes, with its depths kept within a maximum length.
use vstd::prelude::*;
use vstd::arithmetic::power2::{pow2, lemma2_to64, lemma_pow2_unfold, lemma_pow2_adds, lemma_pow2_strictly_increases, lemma_pow2_pos};
use crate::huffman_table::{valid_lengths, lengths_valid, kraft_sum, kraft_term, kraft_total};

verus! {

/// Orders `syms` by ascending frequency, keeping equal frequencies in their order.
fn sort_by_frequency(syms: &mut Vec<usize>, freqs: &[u32])
    requires
        forall|k: int|
            0 <= k < old(syms)@.len() ==> #[trigger] old(syms)@[k] < freqs@.len() && freqs@[old(syms)@[k] as int] > 0,
    ensures
        final(syms)@.len() == old(syms)@.len(),
        forall|k: int|
            0 <= k < final(syms)@.len() ==> #[trigger] final(syms)@[k] < freqs@.len() && freqs@[final(syms)@[k] as int] > 0,
{
    let n = syms.len();
    let mut i: usize = 1;
    while i < n
        invariant
            syms@.len() == n,
            forall|k: int| 0 <= k < n ==> #[trigger] syms@[k] < freqs@.len() && freqs@[syms@[k] as int] > 0,
        decreases n - i,
    {
        let mut j: usize = i;
        while j > 0 && freqs[syms[j - 1]] > freqs[syms[j]]
            invariant
                j < n,
                syms@.len() == n,
                forall|k: int| 0 <= k < n ==> #[trigger] syms@[k] < freqs@.len() && freqs@[syms@[k] as int] > 0,
            decreases j,
        {
            let a = syms[j - 1];
            let b = syms[j];
            syms.set(j - 1, b);
            syms.set(j, a);
            j = j - 1;
        }
        i = i + 1;
    }
}

/// The depth of each leaf of a Huffman tree over the weights `w` (at least two), whose leaves
/// are taken in the given order.
fn tree_depths(w: &Vec<u64>) -> (r: Vec<usize>)
    requires
        2 <= w@.len() <= 320,
    ensures
        r@.len() == w@.len(),
{
    let m = w.len();
    let total = 2 * m - 1;
    let mut weight: Vec<u64> = w.clone();
    let mut parent: Vec<usize> = vec![0usize; total];
    let mut li: usize = 0;
    let mut qi: usize = m;
    let mut next: usize = m;
    while next < total
        invariant
            2 <= m <= 320,
            total == 2 * m - 1,
            m <= next <= total,
            weight@.len() == next,
            parent@.len() == total,
            li <= m <= qi <= next,
            next > m ==> qi < next,
            (m - li) + (next - qi) == total - next + 1,
            forall|x: int|
                (0 <= x < li || m <= x < qi) ==> x < #[trigger] parent@[x] < next,
        decreases total - next,
    {
        let mut sum: u64 = 0;
        let mut k: usize = 0;
        while k < 2
            invariant
                k <= 2,
                2 <= m <= 320,
                m <= next < total,
                weight@.len() == next,
                parent@.len() == total,
                li <= m <= qi <= next,
                (m - li) + (next - qi) + k == total - next + 1,
                forall|x: int|
                    (0 <= x < li || m <= x < qi) ==> x < #[trigger] parent@[x] <= next,
            decreases 2 - k,
        {
            let take_leaf = li < m && (qi == next || weight[li] <= weight[qi]);
            let x: usize = if take_leaf { li } else { qi };
            sum = sum.saturating_add(weight[x]);
            parent.set(x, next);
            if take_leaf {
                li = li + 1;
            } else {
                qi = qi + 1;
            }
            k = k + 1;
        }
        weight.push(sum);
        next = next + 1;
    }
    let mut depth: Vec<usize> = vec![0usize; total];
    let mut x: usize = total - 1;
    while x > 0
        invariant
            x < total == 2 * m - 1,
            2 <= m <= 320,
            depth@.len() == total,
            parent@.len() == total,
            forall|y: int| 0 <= y < total - 1 ==> y < #[trigger] parent@[y] < total,
            forall|y: int| x <= y < total ==> #[trigger] depth@[y] <= total - 1 - y,
        decreases x,
    {
        x = x - 1;
        let p = parent[x];
        let d = depth[p] + 1;
        depth.set(x, d);
    }
    let mut r: Vec<usize> = Vec::new();
    let mut i: usize = 0;
    while i < m
        invariant
            i <= m,
            m < total,
            depth@.len() == total,
            r@.len() == i,
        decreases m - i,
    {
        r.push(depth[i]);
        i = i + 1;
    }
    r
}

/// At most one symbol has a non-zero frequency.
pub open spec fn lone_symbol(freqs: Seq<u32>) -> bool {
    forall|i: int, j: int|
        0 <= i < freqs.len() && 0 <= j < freqs.len() && freqs[i] > 0 && freqs[j] > 0 ==> i == j
}

/// Huffman code lengths for `freqs`, none over `max_len`: zero exactly for the symbols of zero
/// frequency. Where the tree is too deep, the frequencies are flattened and the tree rebuilt;
/// a lone used symbol gets length 1.
fn tree_lengths(freqs: &[u32], max_len: u8) -> (r: Vec<u8>)
    requires
        freqs@.len() <= 320,
        1 <= max_len <= 15,
    ensures
        r@.len() == freqs@.len(),
        forall|i: int|
            0 <= i < freqs@.len() ==> #[trigger] r@[i] <= max_len && (r@[i] > 0 <==> freqs@[i] > 0),
        lone_symbol(freqs@) ==> forall|i: int| 0 <= i < freqs@.len() && freqs@[i] > 0 ==> #[trigger] r@[i] == 1,
{
    let n = freqs.len();
    let mut syms: Vec<usize> = Vec::new();
    let mut r: Vec<u8> = Vec::new();
    let mut i: usize = 0;
    while i < n
        invariant
            i <= n == freqs@.len() <= 320,
            r@.len() == i,
            syms@.len() <= i,
            1 <= max_len,
            forall|k: int| 0 <= k < syms@.len() ==> #[trigger] syms@[k] < i && freqs@[syms@[k] as int] > 0,
            forall|k1: int, k2: int| 0 <= k1 < k2 < syms@.len() ==> syms@[k1] < syms@[k2],
            forall|k: int| 0 <= k < i ==> #[trigger] r@[k] <= max_len && (r@[k] > 0 <==> freqs@[k] > 0),
            forall|k: int| 0 <= k < i && freqs@[k] > 0 ==> #[trigger] r@[k] == 1,
        decreases n - i,
    {
        if freqs[i] > 0 {
            syms.push(i);
            r.push(1);
        } else {
            r.push(0);
        }
        i = i + 1;
    }
    if syms.len() < 2 {
        return r;
    }
    assert(!lone_symbol(freqs@)) by {
        assert(syms@[0] < syms@[1]);
        assert(freqs@[syms@[0] as int] > 0 && freqs@[syms@[1] as int] > 0);
    }
    sort_by_frequency(&mut syms, freqs);
    let m = syms.len();
    let mut w: Vec<u64> = Vec::new();
    let mut k: usize = 0;
    while k < m
        invariant
            k <= m == syms@.len(),
            w@.len() == k,
            forall|j: int| 0 <= j < m ==> #[trigger] syms@[j] < n && freqs@[syms@[j] as int] > 0,
            n == freqs@.len(),
        decreases m - k,
    {
        w.push(freqs[syms[k]] as u64);
        k = k + 1;
    }
    let mut depths = tree_depths(&w);
    let mut round: usize = 0;
    loop
        invariant
            2 <= m == syms@.len() <= 320,
            forall|j: int| 0 <= j < m ==> #[trigger] syms@[j] < n && freqs@[syms@[j] as int] > 0,
            w@.len() == m,
            depths@.len() == m,
        decreases 64 - round,
    {
        let mut deepest: usize = 0;
        let mut k: usize = 0;
        while k < m
            invariant
                k <= m,
                depths@.len() == m,
            decreases m - k,
        {
            if depths[k] > deepest {
                deepest = depths[k];
            }
            k = k + 1;
        }
        if deepest <= max_len as usize || round >= 64 {
            break;
        }
        let mut k: usize = 0;
        while k < m
            invariant
                k <= m,
                w@.len() == m,
            decreases m - k,
        {
            let f = w[k];
            w.set(k, (f >> 1) | 1);
            k = k + 1;
        }
        depths = tree_depths(&w);
        round = round + 1;
    }
    let mut k: usize = 0;
    while k < m
        invariant
            k <= m == syms@.len(),
            depths@.len() == m,
            r@.len() == n == freqs@.len(),
            1 <= max_len,
            forall|j: int| 0 <= j < m ==> #[trigger] syms@[j] < n && freqs@[syms@[j] as int] > 0,
            forall|j: int| 0 <= j < n ==> #[trigger] r@[j] <= max_len && (r@[j] > 0 <==> freqs@[j] > 0),
        decreases m - k,
    {
        let d = depths[k];
        let l: u8 = if d == 0 {
            1
        } else if d > max_len as usize {
            max_len
        } else {
            d as u8
        };
        r.set(syms[k], l);
        k = k + 1;
    }
    r
}

proof fn lemma_kraft_zero(ls: Seq<u8>)
    requires
        forall|i: int| 0 <= i < ls.len() ==> ls[i] == 0,
    ensures
        kraft_sum(ls) == 0,
    decreases ls.len(),
{
    if ls.len() > 0 {
        lemma_kraft_zero(ls.drop_last());
    }
}

proof fn lemma_kraft_one(ls: Seq<u8>, i: int)
    requires
        0 <= i < ls.len(),
        ls[i] == 1,
        forall|j: int| 0 <= j < ls.len() && j != i ==> ls[j] == 0,
    ensures
        kraft_sum(ls) == pow2(14),
    decreases ls.len(),
{
    if i == ls.len() - 1 {
        lemma_kraft_zero(ls.drop_last());
    } else {
        lemma_kraft_one(ls.drop_last(), i);
    }
}

proof fn lemma_kraft_flat(ls: Seq<u8>, k: u8)
    requires
        1 <= k <= 15,
        forall|i: int| 0 <= i < ls.len() ==> ls[i] == 0 || ls[i] == k,
    ensures
        kraft_sum(ls) <= ls.len() * pow2((15 - k) as nat),
    decreases ls.len(),
{
    if ls.len() > 0 {
        lemma_kraft_flat(ls.drop_last(), k);
        assert(kraft_term(ls.last()) <= pow2((15 - k) as nat));
        assert((ls.len() - 1) * pow2((15 - k) as nat) + pow2((15 - k) as nat) == ls.len() * pow2(
            (15 - k) as nat,
        )) by (nonlinear_arith);
    }
}

/// Equal lengths for all used symbols, just enough bits to tell the whole alphabet apart.
fn flat_lengths(freqs: &[u32], max_len: u8) -> (r: Vec<u8>)
    requires
        1 <= freqs@.len() <= 320,
        1 <= max_len <= 15,
        freqs@.len() <= pow2(max_len as nat),
    ensures
        r@.len() == freqs@.len(),
        forall|i: int|
            0 <= i < freqs@.len() ==> #[trigger] r@[i] <= max_len && (r@[i] > 0 <==> freqs@[i] > 0),
        valid_lengths(r@),
{
    let n = freqs.len();
    let mut k: u8 = 1;
    let mut p: usize = 2;
    proof {
        lemma2_to64();
    }
    while p < n
        invariant
            1 <= k <= max_len <= 15,
            p == pow2(k as nat),
            n <= pow2(max_len as nat),
            n <= 320,
        decreases 16 - k,
    {
        proof {
            lemma2_to64();
            if k > max_len {
                lemma_pow2_strictly_increases(max_len as nat, k as nat);
            }
            if k == max_len {
                assert(false);
            }
            lemma_pow2_unfold((k + 1) as nat);
        }
        k = k + 1;
        p = p * 2;
    }
    let mut r: Vec<u8> = Vec::new();
    let mut i: usize = 0;
    while i < n
        invariant
            i <= n == freqs@.len(),
            1 <= k <= max_len <= 15,
            r@.len() == i,
            forall|j: int| 0 <= j < i ==> #[trigger] r@[j] <= max_len && (r@[j] > 0 <==> freqs@[j] > 0),
            forall|j: int| 0 <= j < i ==> #[trigger] r@[j] == 0 || r@[j] == k,
        decreases n - i,
    {
        r.push(if freqs[i] > 0 { k } else { 0 });
        i = i + 1;
    }
    proof {
        lemma_kraft_flat(r@, k);
        lemma_pow2_adds(k as nat, (15 - k) as nat);
        lemma_pow2_pos((15 - k) as nat);
        assert(n * pow2((15 - k) as nat) <= pow2(k as nat) * pow2((15 - k) as nat)) by (nonlinear_arith)
            requires
                n <= pow2(k as nat),
        ;
    }
    r
}

/// How many of the first `i` symbols have a non-zero frequency.
pub open spec fn used_count(f: Seq<u32>, i: int) -> nat
    decreases i,
{
    if i <= 0 {
        0
    } else {
        used_count(f, i - 1) + if f[i - 1] > 0 {
            1nat
        } else {
            0nat
        }
    }
}

proof fn lemma_used_one(f: Seq<u32>, i: int)
    requires
        0 <= i <= f.len(),
        used_count(f, i) >= 1,
    ensures
        exists|a: int| 0 <= a < i && f[a] > 0,
    decreases i,
{
    if f[i - 1] > 0 {
        assert(f[i - 1] > 0);
    } else {
        lemma_used_one(f, i - 1);
        let a = choose|a: int| 0 <= a < i - 1 && f[a] > 0;
        assert(0 <= a < i && f[a] > 0);
    }
}

proof fn lemma_used_two(f: Seq<u32>, i: int)
    requires
        0 <= i <= f.len(),
        used_count(f, i) >= 2,
    ensures
        !lone_symbol(f),
    decreases i,
{
    if used_count(f, i - 1) >= 2 {
        lemma_used_two(f, i - 1);
    } else {
        lemma_used_one(f, i - 1);
        let a = choose|a: int| 0 <= a < i - 1 && f[a] > 0;
        assert(f[i - 1] > 0 && a != i - 1);
    }
}

proof fn lemma_one_used(f: Seq<u32>, i: int, a: int)
    requires
        0 <= a < i <= f.len(),
        f[a] > 0,
    ensures
        used_count(f, i) >= 1,
    decreases i,
{
    if a < i - 1 {
        lemma_one_used(f, i - 1, a);
    }
}

proof fn lemma_two_used(f: Seq<u32>, i: int, a: int, b: int)
    requires
        0 <= a < b < i <= f.len(),
        f[a] > 0,
        f[b] > 0,
    ensures
        used_count(f, i) >= 2,
    decreases i,
{
    if b < i - 1 {
        lemma_two_used(f, i - 1, a, b);
    } else {
        lemma_one_used(f, i - 1, a);
    }
}

fn count_used(freqs: &[u32]) -> (r: usize)
    ensures
        r == used_count(freqs@, freqs@.len() as int),
        r <= freqs@.len(),
{
    let mut c: usize = 0;
    let mut i: usize = 0;
    while i < freqs.len()
        invariant
            i <= freqs@.len(),
            c == used_count(freqs@, i as int),
            c <= i,
        decreases freqs@.len() - i,
    {
        if freqs[i] > 0 {
            c = c + 1;
        }
        i = i + 1;
    }
    c
}

/// A complete code for the used symbols with the fewest bits: where `m` symbols are used and
/// `k` is the least with `m <= 2^k`, the first `2^k - m` used symbols get `k - 1` bits and the
/// others `k`.
fn complete_lengths(freqs: &[u32], max_len: u8) -> (r: Vec<u8>)
    requires
        1 <= freqs@.len() <= 320,
        1 <= max_len <= 15,
        freqs@.len() <= pow2(max_len as nat),
        used_count(freqs@, freqs@.len() as int) >= 2,
    ensures
        r@.len() == freqs@.len(),
        forall|i: int|
            0 <= i < freqs@.len() ==> #[trigger] r@[i] <= max_len && (r@[i] > 0 <==> freqs@[i] > 0),
        kraft_sum(r@) == pow2(15),
{
    let n = freqs.len();
    let m = count_used(freqs);
    let mut k: u8 = 1;
    let mut p: usize = 2;
    proof {
        lemma2_to64();
    }
    while p < m
        invariant
            1 <= k <= max_len <= 15,
            p == pow2(k as nat),
            2 <= m <= n <= pow2(max_len as nat),
            n <= 320,
            k >= 2 ==> pow2((k - 1) as nat) < m,
        decreases 16 - k,
    {
        proof {
            lemma2_to64();
            if k > max_len {
                lemma_pow2_strictly_increases(max_len as nat, k as nat);
            }
            if k == max_len {
                assert(false);
            }
            lemma_pow2_unfold((k + 1) as nat);
        }
        k = k + 1;
        p = p * 2;
    }
    let a: usize = p - m;
    proof {
        if k >= 2 {
            lemma_pow2_unfold(k as nat);
        }
        lemma_pow2_adds(1, (15 - k) as nat);
        lemma_pow2_adds(k as nat, (15 - k) as nat);
    }
    let mut r: Vec<u8> = Vec::new();
    let mut c: usize = 0;
    let mut i: usize = 0;
    assert(kraft_sum(r@) == 0);
    assert(0 * pow2((16 - k) as nat) + 0 * pow2((15 - k) as nat) == 0) by (nonlinear_arith);
    while i < n
        invariant
            i <= n == freqs@.len() <= 320,
            1 <= k <= max_len <= 15,
            a < m,
            a > 0 ==> k >= 2,
            m == used_count(freqs@, n as int),
            c == used_count(freqs@, i as int),
            c <= i,
            r@.len() == i,
            forall|j: int| 0 <= j < i ==> #[trigger] r@[j] <= max_len && (r@[j] > 0 <==> freqs@[j] > 0),
            forall|j: int| 0 <= j < i ==> #[trigger] r@[j] <= 15,
            kraft_sum(r@) == (if c < a { c } else { a }) * pow2((16 - k) as nat) + (if c < a {
                0
            } else {
                c - a
            }) * pow2((15 - k) as nat),
        decreases n - i,
    {
        let ghost r0 = r@;
        let l: u8 = if freqs[i] == 0 {
            0
        } else if c < a {
            k - 1
        } else {
            k
        };
        r.push(l);
        assert(r@.drop_last() =~= r0);
        if freqs[i] > 0 {
            c = c + 1;
        }
        i = i + 1;
        proof {
            let p16 = pow2((16 - k) as nat);
            let p15 = pow2((15 - k) as nat);
            let c0: int = if l == 0 { c as int } else { c - 1 };
            assert((if c0 < a { c0 } else { a as int }) * p16 + (if c0 < a { 0 } else { c0 - a }) * p15
                + kraft_term(l) == (if c < a { c as int } else { a as int }) * p16 + (if c < a { 0 } else { c - a }) * p15)
                by (nonlinear_arith)
                requires
                    l == 0 ==> c0 == c && kraft_term(l) == 0,
                    l != 0 ==> c0 == c - 1,
                    l != 0 && c0 < a ==> kraft_term(l) == p16,
                    l != 0 && c0 >= a ==> kraft_term(l) == p15,
            ;
        }
    }
    proof {
        assert(pow2((16 - k) as nat) == 2 * pow2((15 - k) as nat));
        assert(pow2(15) == pow2(k as nat) * pow2((15 - k) as nat));
        let q = pow2((15 - k) as nat);
        assert(a * (2 * q) + (m - a) * q == (a + m) * q) by (nonlinear_arith);
    }
    r
}

/// Code lengths for `freqs`, none over `max_len`, zero exactly for the symbols of zero
/// frequency, that a prefix code can have, and a complete one where two or more symbols are
/// used. They come from a Huffman tree, flattened where it is too deep; should they still not
/// form such a code, the used symbols get lengths that differ by at most one. A lone used
/// symbol gets length 1.
pub fn huffman_lengths_from_frequency(freqs: &[u32], max_len: u8) -> (r: Vec<u8>)
    requires
        1 <= freqs@.len() <= 320,
        1 <= max_len <= 15,
        freqs@.len() <= pow2(max_len as nat),
    ensures
        r@.len() == freqs@.len(),
        forall|i: int|
            0 <= i < freqs@.len() ==> #[trigger] r@[i] <= max_len && (r@[i] > 0 <==> freqs@[i] > 0),
        valid_lengths(r@),
        !lone_symbol(freqs@) ==> kraft_sum(r@) == pow2(15),
        lone_symbol(freqs@) ==> forall|i: int| 0 <= i < freqs@.len() && freqs@[i] > 0 ==> #[trigger] r@[i] == 1,
{
    let r = tree_lengths(freqs, max_len);
    let m = count_used(freqs);
    proof {
        if !lone_symbol(freqs@) {
            let (a, b) = choose|a: int, b: int|
                0 <= a < freqs@.len() && 0 <= b < freqs@.len() && freqs@[a] > 0 && freqs@[b] > 0
                    && a != b;
            if a < b {
                lemma_two_used(freqs@, freqs@.len() as int, a, b);
            } else {
                lemma_two_used(freqs@, freqs@.len() as int, b, a);
            }
        }
    }
    if m >= 2 {
        proof {
            lemma_used_two(freqs@, freqs@.len() as int);
        }
        if lengths_valid(&r) {
            if kraft_total(&r) == 32768 {
                proof {
                    lemma2_to64();
                }
                return r;
            }
        }
        let c = complete_lengths(freqs, max_len);
        proof {
            lemma2_to64();
        }
        return c;
    }
    if lengths_valid(&r) {
        return r;
    }
    proof {
        if lone_symbol(freqs@) {
            if exists|i: int| 0 <= i < freqs@.len() && freqs@[i] > 0 {
                let i = choose|i: int| 0 <= i < freqs@.len() && freqs@[i] > 0;
                assert forall|j: int| 0 <= j < r@.len() && j != i implies r@[j] == 0 by {
                    if r@[j] > 0 {
                        assert(freqs@[j] > 0);
                    }
                }
                assert(r@[i] == 1);
                lemma_kraft_one(r@, i);
            } else {
                assert forall|j: int| 0 <= j < r@.len() implies r@[j] == 0 by {
                    if r@[j] > 0 {
                        assert(freqs@[j] > 0);
                    }
                }
                lemma_kraft_zero(r@);
            }
            lemma2_to64();
            assert(valid_lengths(r@));
        }
    }
    flat_lengths(freqs, max_len)
}

} // verus!
