//! LZ77 matching over a chained hash table, and the record buffer that collects the
//! symbol frequencies of a block.
use vstd::prelude::*;
use vstd::math::min;
use crate::length_encode::{length_index, dist_index, length_code, dist_code};

verus! {

/// The size of the sliding window: how far back a match may reach.
pub const WINDOW_SIZE: usize = 32768;

/// The number of slots of the hash table.
pub const HASH_SIZE: usize = 32768;

/// The shortest match worth a back-reference.
pub const MIN_MATCH: usize = 3;

/// The longest match DEFLATE can code.
pub const MAX_MATCH: usize = 258;

/// How many hash-chain candidates one search examines at most.
pub const MAX_CHAIN: usize = 128;

/// How many records a dynamic block collects before it is emitted.
pub const MAX_BLOCK_RECORDS: usize = 32768;

/// One LZ77 record.
#[derive(Clone, Copy, Debug, PartialEq, Eq, Structural)]
pub enum LDPair {
    Literal(u8),
    LengthDistance(u16, u16),
    EndOfBlock,
}

/// `out` extended by `n` bytes, each copied from `dist` bytes before it.
pub open spec fn copy_back(out: Seq<u8>, n: nat, dist: nat) -> Seq<u8>
    decreases n,
{
    if n == 0 {
        out
    } else {
        let o = copy_back(out, (n - 1) as nat, dist);
        o.push(o[o.len() - dist])
    }
}

/// What a decoder has after applying one record to `out`.
pub open spec fn apply_pair(out: Seq<u8>, p: LDPair) -> Seq<u8> {
    match p {
        LDPair::Literal(b) => out.push(b),
        LDPair::LengthDistance(l, d) => copy_back(out, l as nat, d as nat),
        LDPair::EndOfBlock => out,
    }
}

/// What a decoder has after applying `recs`, in order, to `prefix`.
pub open spec fn expand(prefix: Seq<u8>, recs: Seq<LDPair>) -> Seq<u8>
    decreases recs.len(),
{
    if recs.len() == 0 {
        prefix
    } else {
        apply_pair(expand(prefix, recs.drop_last()), recs.last())
    }
}

/// A record that may follow `n` decoded bytes: a match stays within the DEFLATE limits
/// and reaches no further back than what was decoded.
pub open spec fn pair_fits(n: nat, p: LDPair) -> bool {
    match p {
        LDPair::Literal(_) => true,
        LDPair::LengthDistance(l, d) => 3 <= l <= 258 && 1 <= d <= 32768 && d <= n,
        LDPair::EndOfBlock => true,
    }
}

/// Each record of `recs` fits what precedes it when decoding from `prefix`.
pub open spec fn refs_fit(prefix: Seq<u8>, recs: Seq<LDPair>) -> bool
    decreases recs.len(),
{
    recs.len() == 0 || (refs_fit(prefix, recs.drop_last()) && pair_fits(
        expand(prefix, recs.drop_last()).len(),
        recs.last(),
    ))
}

/// The literal/length symbol that codes a record.
pub open spec fn lit_symbol(p: LDPair) -> int {
    match p {
        LDPair::Literal(b) => b as int,
        LDPair::LengthDistance(l, _) => 257 + length_index(l as nat) as int,
        LDPair::EndOfBlock => 256,
    }
}

proof fn lemma_copy_back(src: Seq<u8>, p: nat, n: nat, dist: nat)
    requires
        1 <= dist <= p,
        p + n <= src.len(),
        forall|k: int| 0 <= k < n ==> #[trigger] src[p + k] == src[p - dist + k],
    ensures
        copy_back(src.take(p as int), n, dist) == src.take((p + n) as int),
    decreases n,
{
    if n > 0 {
        lemma_copy_back(src, p, (n - 1) as nat, dist);
        let o = copy_back(src.take(p as int), (n - 1) as nat, dist);
        assert(src[p + (n - 1)] == src[p - dist + (n - 1)]);
        assert(o.push(o[o.len() - dist]) =~= src.take((p + n) as int));
    }
}

pub proof fn lemma_expand_push(prefix: Seq<u8>, recs: Seq<LDPair>, p: LDPair)
    ensures
        expand(prefix, recs.push(p)) == apply_pair(expand(prefix, recs), p),
        refs_fit(prefix, recs.push(p)) == (refs_fit(prefix, recs) && pair_fits(
            expand(prefix, recs).len(),
            p,
        )),
{
    assert(recs.push(p).drop_last() =~= recs);
}

/// Decoding two runs of records one after the other is decoding their concatenation.
pub proof fn lemma_expand_append(prefix: Seq<u8>, a: Seq<LDPair>, b: Seq<LDPair>)
    ensures
        expand(prefix, a + b) == expand(expand(prefix, a), b),
        refs_fit(prefix, a + b) == (refs_fit(prefix, a) && refs_fit(expand(prefix, a), b)),
    decreases b.len(),
{
    if b.len() == 0 {
        assert(a + b =~= a);
    } else {
        lemma_expand_append(prefix, a, b.drop_last());
        assert((a + b).drop_last() =~= a + b.drop_last());
        assert((a + b).last() == b.last());
    }
}

/// A hash table of 3-byte prefixes whose entries chain earlier positions with the same hash.
/// An entry holds a position plus one; zero means no position.
pub struct ChainedHashTable {
    pub head: Vec<usize>,
    pub prev: Vec<usize>,
}

impl ChainedHashTable {
    pub open spec fn wf(&self) -> bool {
        self.head@.len() == HASH_SIZE && self.prev@.len() == WINDOW_SIZE
    }

    pub fn new() -> (r: ChainedHashTable)
        ensures
            r.wf(),
            forall|i: int| 0 <= i < HASH_SIZE ==> #[trigger] r.head@[i] == 0,
            forall|i: int| 0 <= i < WINDOW_SIZE ==> #[trigger] r.prev@[i] == 0,
    {
        let r = ChainedHashTable { head: vec![0usize; HASH_SIZE], prev: vec![0usize; WINDOW_SIZE] };
        assert forall|i: int| 0 <= i < HASH_SIZE implies #[trigger] r.head@[i] == 0 by {
            assert(cloned(0usize, r.head@[i]));
        }
        assert forall|i: int| 0 <= i < WINDOW_SIZE implies #[trigger] r.prev@[i] == 0 by {
            assert(cloned(0usize, r.prev@[i]));
        }
        r
    }

    /// The hash slot of three bytes.
    pub fn hash3(a: u8, b: u8, c: u8) -> (r: usize)
        ensures
            r < HASH_SIZE,
            r == (a as int * 1089 + b as int * 33 + c as int) % (HASH_SIZE as int),
    {
        ((a as usize) * 1089 + (b as usize) * 33 + (c as usize)) % HASH_SIZE
    }

    /// Makes position `p` the newest of its chain.
    pub fn insert(&mut self, input: &[u8], p: usize)
        requires
            old(self).wf(),
            p + 3 <= input@.len(),
        ensures
            final(self).wf(),
            ({
                let h = (input@[p as int] as int * 1089 + input@[p + 1] as int * 33
                    + input@[p + 2] as int) % (HASH_SIZE as int);
                &&& final(self).head@ == old(self).head@.update(h, (p + 1) as usize)
                &&& final(self).prev@ == old(self).prev@.update(
                    p as int % (WINDOW_SIZE as int),
                    old(self).head@[h],
                )
            }),
    {
        let h = Self::hash3(input[p], input[p + 1], input[p + 2]);
        let old_head = self.head[h];
        self.prev.set(p % WINDOW_SIZE, old_head);
        self.head.set(h, p + 1);
    }
}

/// The length of the common run of `s[a..]` and `s[b..]`, at most `limit`.
pub open spec fn common_run(s: Seq<u8>, a: int, b: int, limit: nat) -> nat
    decreases limit,
{
    if limit == 0 || a < 0 || b < 0 || a >= s.len() || b >= s.len() || s[a] != s[b] {
        0
    } else {
        1 + common_run(s, a + 1, b + 1, (limit - 1) as nat)
    }
}

proof fn lemma_common_run_bound(s: Seq<u8>, a: int, b: int, limit: nat)
    ensures
        common_run(s, a, b, limit) <= limit,
    decreases limit,
{
    if limit > 0 {
        lemma_common_run_bound(s, a + 1, b + 1, (limit - 1) as nat);
    }
}

/// The entry reached after `k` steps along the hash chain that starts at slot `h`: a
/// position plus one, or zero where the chain has ended.
pub open spec fn chain_entry(head: Seq<usize>, prev: Seq<usize>, h: int, k: nat) -> usize
    decreases k,
{
    if k == 0 {
        head[h]
    } else {
        let e = chain_entry(head, prev, h, (k - 1) as nat);
        if e == 0 {
            0
        } else {
            prev[(e - 1) as int % WINDOW_SIZE as int]
        }
    }
}

/// A chain entry that names a position before `pos` within the window.
pub open spec fn in_window(e: usize, pos: int) -> bool {
    e != 0 && e - 1 < pos && pos - (e - 1) <= WINDOW_SIZE
}

/// The search reaches step `k` of the chain: this entry and all before it lie in the window.
pub open spec fn walked(head: Seq<usize>, prev: Seq<usize>, h: int, pos: int, k: nat) -> bool {
    forall|j: nat| j <= k ==> in_window(#[trigger] chain_entry(head, prev, h, j), pos)
}

/// The hash slot of the three bytes at `pos`.
pub open spec fn hash_at(s: Seq<u8>, pos: int) -> int {
    (s[pos] as int * 1089 + s[pos + 1] as int * 33 + s[pos + 2] as int) % (HASH_SIZE as int)
}

/// The result of the chain search from step `k`, where `cand` is the current entry and
/// (`best_len`, `best_dist`) the best match so far: a longer run replaces the best one, and
/// the search stops at the end of the chain, after `MAX_CHAIN` steps, at an entry outside the
/// window, or once a run reaches `limit`.
pub open spec fn search(
    s: Seq<u8>,
    head: Seq<usize>,
    prev: Seq<usize>,
    pos: int,
    limit: nat,
    k: nat,
    cand: usize,
    best_len: nat,
    best_dist: int,
) -> (nat, int)
    decreases MAX_CHAIN - k,
{
    if cand != 0 && k < MAX_CHAIN && best_len < limit && in_window(cand, pos) {
        let q = cand - 1;
        let run = common_run(s, pos, q, limit);
        let nb = if run > best_len { run } else { best_len };
        let nd = if run > best_len { pos - q } else { best_dist };
        search(s, head, prev, pos, limit, k + 1, prev[q % WINDOW_SIZE as int], nb, nd)
    } else {
        (best_len, best_dist)
    }
}

/// The match that `longest_match` finds at `pos`, as (length, distance).
pub open spec fn best_match(s: Seq<u8>, head: Seq<usize>, prev: Seq<usize>, pos: int) -> (nat, int) {
    let limit = min(MAX_MATCH as int, s.len() - pos) as nat;
    search(s, head, prev, pos, limit, 0, head[hash_at(s, pos)], 0, 0)
}

/// The length of the common run of `input[a..]` and `input[b..]`, at most `limit`.
fn match_length(input: &[u8], a: usize, b: usize, limit: usize) -> (r: usize)
    requires
        b < a,
        a + limit <= input.len(),
    ensures
        r <= limit,
        r == common_run(input@, a as int, b as int, limit as nat),
        forall|k: int| 0 <= k < r ==> #[trigger] input@[a + k] == input@[b + k],
{
    let mut k: usize = 0;
    while k < limit && input[a + k] == input[b + k]
        invariant
            k <= limit,
            b < a,
            a + limit <= input.len(),
            forall|j: int| 0 <= j < k ==> #[trigger] input@[a + j] == input@[b + j],
            common_run(input@, a as int, b as int, limit as nat) == k + common_run(
                input@,
                a + k,
                b + k,
                (limit - k) as nat,
            ),
        decreases limit - k,
    {
        k = k + 1;
    }
    k
}

/// The longest match for `input[pos..]` among the chain of `pos`'s hash, as (length,
/// distance); a length below three means that there is none. The search walks at most
/// `MAX_CHAIN` entries and stops at the first that is not an earlier position within the
/// window; no entry it walks has a longer common run, up to 258 bytes and the end of input.
pub fn longest_match(input: &[u8], table: &ChainedHashTable, pos: usize) -> (r: (usize, usize))
    requires
        table.wf(),
        pos + 3 <= input@.len(),
    ensures
        r.0 <= MAX_MATCH,
        pos + r.0 <= input@.len(),
        r.0 >= MIN_MATCH ==> 1 <= r.1 <= WINDOW_SIZE && r.1 <= pos,
        r.0 >= MIN_MATCH ==> forall|k: int|
            0 <= k < r.0 ==> #[trigger] input@[pos + k] == input@[pos - r.1 + k],
        (r.0 as nat, r.1 as int) == best_match(input@, table.head@, table.prev@, pos as int),
        forall|k: nat|
            k < MAX_CHAIN && walked(table.head@, table.prev@, hash_at(input@, pos as int), pos as int, k)
                ==> common_run(
                input@,
                pos as int,
                chain_entry(table.head@, table.prev@, hash_at(input@, pos as int), k) - 1,
                min(MAX_MATCH as int, input@.len() - pos) as nat,
            ) <= r.0,
{
    let remaining = input.len() - pos;
    let limit: usize = if remaining < MAX_MATCH { remaining } else { MAX_MATCH };
    let h = ChainedHashTable::hash3(input[pos], input[pos + 1], input[pos + 2]);
    let ghost hs = h as int;
    assert(hs == hash_at(input@, pos as int));
    let mut cand = table.head[h];
    let mut best_len: usize = 0;
    let mut best_dist: usize = 0;
    let mut steps: usize = 0;
    assert(limit as int == min(MAX_MATCH as int, input@.len() - pos));
    while cand != 0 && steps < MAX_CHAIN && best_len < limit && cand - 1 < pos && pos - (cand - 1)
        <= WINDOW_SIZE
        invariant
            table.wf(),
            hs == hash_at(input@, pos as int),
            0 <= hs < HASH_SIZE,
            pos + limit <= input@.len(),
            limit <= MAX_MATCH,
            limit as int == min(MAX_MATCH as int, input@.len() - pos),
            best_len <= limit,
            steps <= MAX_CHAIN,
            cand == chain_entry(table.head@, table.prev@, hs, steps as nat),
            search(input@, table.head@, table.prev@, pos as int, limit as nat, steps as nat, cand,
                best_len as nat, best_dist as int) == best_match(input@, table.head@, table.prev@, pos as int),
            best_len >= MIN_MATCH ==> 1 <= best_dist <= WINDOW_SIZE && best_dist <= pos,
            best_len >= MIN_MATCH ==> forall|k: int|
                0 <= k < best_len ==> #[trigger] input@[pos + k] == input@[pos - best_dist + k],
            forall|k: nat|
                k < steps ==> common_run(
                    input@,
                    pos as int,
                    chain_entry(table.head@, table.prev@, hs, k) - 1,
                    limit as nat,
                ) <= best_len,
        decreases MAX_CHAIN - steps,
    {
        let q = cand - 1;
        let k = match_length(input, pos, q, limit);
        if k > best_len {
            best_len = k;
            best_dist = pos - q;
        }
        cand = table.prev[q % WINDOW_SIZE];
        steps = steps + 1;
    }
    proof {
        assert forall|k: nat|
            k < MAX_CHAIN && walked(table.head@, table.prev@, hs, pos as int, k) implies common_run(
            input@,
            pos as int,
            chain_entry(table.head@, table.prev@, hs, k) - 1,
            limit as nat,
        ) <= best_len by {
            if k >= steps {
                if best_len < limit && steps < MAX_CHAIN {
                    assert(in_window(chain_entry(table.head@, table.prev@, hs, steps as nat), pos as int));
                    assert(false);
                }
                lemma_common_run_bound(input@, pos as int, chain_entry(table.head@, table.prev@, hs, k) - 1, limit as nat);
            }
        }
    }
    (best_len, best_dist)
}

/// Collects the records of a block and counts the symbols they use.
pub struct DynamicWriter {
    pub buffer: Vec<LDPair>,
    pub lit_freq: Vec<u32>,
    pub dist_freq: Vec<u32>,
}

impl DynamicWriter {
    /// The counts fit the buffer, and every symbol that a buffered record uses has been counted.
    pub open spec fn wf(&self) -> bool {
        &&& self.lit_freq@.len() == 286
        &&& self.dist_freq@.len() == 30
        &&& self.buffer@.len() <= MAX_BLOCK_RECORDS + 1
        &&& forall|i: int| 0 <= i < 286 ==> self.lit_freq@[i] <= self.buffer@.len()
        &&& forall|i: int| 0 <= i < 30 ==> self.dist_freq@[i] <= self.buffer@.len()
        &&& forall|j: int|
            0 <= j < self.buffer@.len() ==> self.counted(#[trigger] self.buffer@[j])
    }

    /// The symbols of `p` have non-zero counts.
    pub open spec fn counted(&self, p: LDPair) -> bool {
        &&& 0 <= lit_symbol(p) < 286
        &&& self.lit_freq@[lit_symbol(p)] > 0
        &&& (p matches LDPair::LengthDistance(l, d) ==> 3 <= l <= 258 && 1 <= d <= 32768 && dist_index(d as nat) < 30
            && self.dist_freq@[dist_index(d as nat) as int] > 0)
    }

    pub fn new() -> (r: DynamicWriter)
        ensures
            r.wf(),
            r.buffer@.len() == 0,
    {
        let r = DynamicWriter {
            buffer: Vec::new(),
            lit_freq: vec![0u32; 286],
            dist_freq: vec![0u32; 30],
        };
        assert forall|i: int| 0 <= i < 286 implies r.lit_freq@[i] <= 0 by {
            assert(cloned(0u32, r.lit_freq@[i]));
        }
        assert forall|i: int| 0 <= i < 30 implies r.dist_freq@[i] <= 0 by {
            assert(cloned(0u32, r.dist_freq@[i]));
        }
        r
    }

    /// Buffers a record and counts its symbols.
    pub fn write_pair(&mut self, p: LDPair)
        requires
            old(self).wf(),
            old(self).buffer@.len() < MAX_BLOCK_RECORDS + 1,
            p matches LDPair::LengthDistance(l, d) ==> 3 <= l <= 258 && 1 <= d <= 32768,
        ensures
            final(self).wf(),
            final(self).buffer@ == old(self).buffer@.push(p),
            final(self).lit_freq@ == old(self).lit_freq@.update(
                lit_symbol(p),
                (old(self).lit_freq@[lit_symbol(p)] + 1) as u32,
            ),
            p matches LDPair::LengthDistance(_, d) ==> final(self).dist_freq@
                == old(self).dist_freq@.update(
                dist_index(d as nat) as int,
                (old(self).dist_freq@[dist_index(d as nat) as int] + 1) as u32,
            ),
            !(p is LengthDistance) ==> final(self).dist_freq@ == old(self).dist_freq@,
    {
        match p {
            LDPair::Literal(b) => {
                let s = b as usize;
                let c = self.lit_freq[s];
                self.lit_freq.set(s, c + 1);
            },
            LDPair::LengthDistance(l, d) => {
                let (li, _, _) = length_code(l);
                let s = 257 + li;
                let c = self.lit_freq[s];
                self.lit_freq.set(s, c + 1);
                let (di, _, _) = dist_code(d);
                let c = self.dist_freq[di];
                self.dist_freq.set(di, c + 1);
            },
            LDPair::EndOfBlock => {
                let c = self.lit_freq[256];
                self.lit_freq.set(256, c + 1);
            },
        }
        assert(self.counted(p));
        assert forall|i: int| 0 <= i < 286 implies old(self).lit_freq@[i] <= self.lit_freq@[i] by {}
        assert forall|i: int| 0 <= i < 30 implies old(self).dist_freq@[i] <= self.dist_freq@[i] by {}
        self.buffer.push(p);
        assert forall|j: int| 0 <= j < self.buffer@.len() implies self.counted(
            #[trigger] self.buffer@[j],
        ) by {
            if j < old(self).buffer@.len() {
                let x = old(self).buffer@[j];
                assert(old(self).counted(x));
                assert(self.buffer@[j] == x);
                assert(old(self).lit_freq@[lit_symbol(x)] <= self.lit_freq@[lit_symbol(x)]);
                if let LDPair::LengthDistance(_, d) = x {
                    let di = dist_index(d as nat) as int;
                    assert(old(self).dist_freq@[di] <= self.dist_freq@[di]);
                }
            }
        }
    }
}

/// The matcher's progress through the input.
pub struct LZ77State {
    pub pos: usize,
    pub table: ChainedHashTable,
}

impl LZ77State {
    pub fn new() -> (r: LZ77State)
        ensures
            r.pos == 0,
            r.table.wf(),
            r.table.head@ == empty_slots(),
            r.table.prev@ == empty_slots(),
    {
        let r = LZ77State { pos: 0, table: ChainedHashTable::new() };
        assert(r.table.head@ =~= empty_slots());
        assert(r.table.prev@ =~= empty_slots());
        r
    }

    /// All input has been consumed.
    pub fn is_last_block(&self, input: &[u8]) -> (r: bool)
        ensures
            r == (self.pos >= input@.len()),
    {
        self.pos >= input.len()
    }
}

/// The hash table after making position `p` the newest of its chain.
pub open spec fn ins(head: Seq<usize>, prev: Seq<usize>, s: Seq<u8>, p: int) -> (Seq<usize>, Seq<usize>) {
    let h = hash_at(s, p);
    (head.update(h, (p + 1) as usize), prev.update(p % WINDOW_SIZE as int, head[h]))
}

/// The hash table after inserting the positions `pos + j` up to `pos + len - 1` that still
/// have three bytes ahead of them.
pub open spec fn ins_run(
    head: Seq<usize>,
    prev: Seq<usize>,
    s: Seq<u8>,
    pos: int,
    j: int,
    len: int,
) -> (Seq<usize>, Seq<usize>)
    decreases len - j,
{
    if j >= len {
        (head, prev)
    } else {
        let t = if s.len() - (pos + j) >= 3 {
            ins(head, prev, s, pos + j)
        } else {
            (head, prev)
        };
        ins_run(t.0, t.1, s, pos, j + 1, len)
    }
}

/// One greedy step of the matcher at `pos`: the record it emits, the hash table after it and
/// the next position. With three bytes ahead, the chain search runs and `pos` is inserted; a
/// match of at least three bytes is taken whole, its other positions inserted, else the byte
/// is a literal.
pub open spec fn step(s: Seq<u8>, head: Seq<usize>, prev: Seq<usize>, pos: int) -> (
    LDPair,
    Seq<usize>,
    Seq<usize>,
    int,
) {
    if s.len() - pos >= 3 {
        let m = best_match(s, head, prev, pos);
        let t = ins(head, prev, s, pos);
        if m.0 >= 3 {
            let u = ins_run(t.0, t.1, s, pos, 1, m.0 as int);
            (LDPair::LengthDistance(m.0 as u16, m.1 as u16), u.0, u.1, pos + m.0)
        } else {
            (LDPair::Literal(s[pos]), t.0, t.1, pos + 1)
        }
    } else {
        (LDPair::Literal(s[pos]), head, prev, pos + 1)
    }
}

/// The matcher run on from `pos` with the records `buf` already collected, until the input
/// ends or the block is full: the records, the hash table and the position it ends with.
pub open spec fn run_block(
    s: Seq<u8>,
    head: Seq<usize>,
    prev: Seq<usize>,
    pos: int,
    buf: Seq<LDPair>,
) -> (Seq<LDPair>, Seq<usize>, Seq<usize>, int)
    decreases s.len() - pos,
{
    if 0 <= pos < s.len() && buf.len() < MAX_BLOCK_RECORDS {
        let st = step(s, head, prev, pos);
        if pos < st.3 <= s.len() {
            run_block(s, st.1, st.2, st.3, buf.push(st.0))
        } else {
            (buf, head, prev, pos)
        }
    } else {
        (buf, head, prev, pos)
    }
}

/// The records of the whole input, one record buffer after another, with the hash table
/// carried from each buffer to the next.
pub open spec fn parse_from(s: Seq<u8>, head: Seq<usize>, prev: Seq<usize>, pos: int) -> Seq<LDPair>
    decreases s.len() - pos,
{
    if 0 <= pos < s.len() {
        let r = run_block(s, head, prev, pos, Seq::empty());
        if pos < r.3 <= s.len() {
            r.0 + parse_from(s, r.1, r.2, r.3)
        } else {
            Seq::empty()
        }
    } else {
        Seq::empty()
    }
}

/// An empty hash table slot array.
pub open spec fn empty_slots() -> Seq<usize> {
    Seq::new(32768, |i: int| 0usize)
}

/// The greedy LZ77 parse of `s`, from an empty hash table.
pub open spec fn greedy_parse(s: Seq<u8>) -> Seq<LDPair> {
    parse_from(s, empty_slots(), empty_slots(), 0)
}

/// Matches input from the state's position until the input ends or the block is full,
/// appending the records to `writer`. Decoding the records after the bytes before the old
/// position gives the input up to the new position.
pub fn lz77_compress_block(input: &[u8], state: &mut LZ77State, writer: &mut DynamicWriter)
    requires
        old(state).table.wf(),
        old(state).pos <= input@.len(),
        old(writer).wf(),
        old(writer).buffer@.len() == 0,
    ensures
        final(state).table.wf(),
        old(state).pos <= final(state).pos <= input@.len(),
        old(state).pos < input@.len() ==> old(state).pos < final(state).pos,
        final(writer).wf(),
        final(writer).buffer@.len() <= MAX_BLOCK_RECORDS,
        final(writer).buffer@.len() <= final(state).pos - old(state).pos,
        final(state).pos < input@.len() ==> final(writer).buffer@.len() == MAX_BLOCK_RECORDS,
        expand(input@.take(old(state).pos as int), final(writer).buffer@) == input@.take(
            final(state).pos as int,
        ),
        refs_fit(input@.take(old(state).pos as int), final(writer).buffer@),
        forall|j: int|
            0 <= j < final(writer).buffer@.len() ==> !(final(writer).buffer@[j] is EndOfBlock),
        (final(writer).buffer@, final(state).table.head@, final(state).table.prev@, final(state).pos as int)
            == run_block(input@, old(state).table.head@, old(state).table.prev@, old(state).pos as int,
            Seq::empty()),
{
    let ghost prefix = input@.take(state.pos as int);
    let ghost start = state.pos;
    let ghost goal = run_block(input@, state.table.head@, state.table.prev@, state.pos as int, Seq::empty());
    assert(writer.buffer@ =~= Seq::<LDPair>::empty());
    while state.pos < input.len() && writer.buffer.len() < MAX_BLOCK_RECORDS
        invariant
            state.table.wf(),
            start <= state.pos <= input@.len(),
            writer.wf(),
            writer.buffer@.len() <= MAX_BLOCK_RECORDS,
            start < state.pos || writer.buffer@.len() == 0,
            writer.buffer@.len() <= state.pos - start,
            prefix == input@.take(start as int),
            expand(prefix, writer.buffer@) == input@.take(state.pos as int),
            refs_fit(prefix, writer.buffer@),
            forall|j: int| 0 <= j < writer.buffer@.len() ==> !(writer.buffer@[j] is EndOfBlock),
            run_block(input@, state.table.head@, state.table.prev@, state.pos as int, writer.buffer@)
                == goal,
        decreases input@.len() - state.pos,
    {
        let pos = state.pos;
        let ghost buf0 = writer.buffer@;
        let ghost h0 = state.table.head@;
        let ghost p0 = state.table.prev@;
        let ghost st = step(input@, h0, p0, pos as int);
        if input.len() - pos >= MIN_MATCH {
            let (len, dist) = longest_match(input, &state.table, pos);
            state.table.insert(input, pos);
            let ghost h1 = state.table.head@;
            let ghost p1 = state.table.prev@;
            assert((h1, p1) == ins(h0, p0, input@, pos as int));
            if len >= MIN_MATCH {
                let p = LDPair::LengthDistance(len as u16, dist as u16);
                writer.write_pair(p);
                proof {
                    lemma_expand_push(prefix, buf0, p);
                    lemma_copy_back(input@, pos as nat, len as nat, dist as nat);
                }
                let mut j: usize = 1;
                while j < len
                    invariant
                        state.table.wf(),
                        pos + len <= input.len(),
                        1 <= j <= len,
                        ins_run(state.table.head@, state.table.prev@, input@, pos as int, j as int, len as int)
                            == ins_run(h1, p1, input@, pos as int, 1, len as int),
                    decreases len - j,
                {
                    if input.len() - (pos + j) >= MIN_MATCH {
                        state.table.insert(input, pos + j);
                    }
                    j = j + 1;
                }
                assert(st == (p, state.table.head@, state.table.prev@, (pos + len) as int));
                state.pos = pos + len;
            } else {
                let p = LDPair::Literal(input[pos]);
                writer.write_pair(p);
                proof {
                    lemma_expand_push(prefix, buf0, p);
                }
                assert(input@.take(pos as int).push(input@[pos as int]) =~= input@.take(
                    pos + 1,
                ));
                assert(st == (p, state.table.head@, state.table.prev@, (pos + 1) as int));
                state.pos = pos + 1;
            }
        } else {
            let p = LDPair::Literal(input[pos]);
            writer.write_pair(p);
            proof {
                lemma_expand_push(prefix, buf0, p);
            }
            assert(input@.take(pos as int).push(input@[pos as int]) =~= input@.take(pos + 1));
            assert(st == (p, state.table.head@, state.table.prev@, (pos + 1) as int));
            state.pos = pos + 1;
        }
        assert forall|j: int| 0 <= j < writer.buffer@.len() implies !(
        writer.buffer@[j] is EndOfBlock) by {
            if j < buf0.len() {
                assert(writer.buffer@[j] == buf0[j]);
            }
        }
    }
}

} // verus!
