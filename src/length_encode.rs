//! The length and distance tables of DEFLATE: which symbol codes a match length or a
//! distance, and which extra bits follow it.
use vstd::prelude::*;
use vstd::arithmetic::power2::{pow2, lemma2_to64};

verus! {

/// The smallest match length coded by length symbol `257 + i`.
pub open spec fn length_base(i: int) -> nat {
    if i == 0 {
        3
    } else if i == 1 {
        4
    } else if i == 2 {
        5
    } else if i == 3 {
        6
    } else if i == 4 {
        7
    } else if i == 5 {
        8
    } else if i == 6 {
        9
    } else if i == 7 {
        10
    } else if i == 8 {
        11
    } else if i == 9 {
        13
    } else if i == 10 {
        15
    } else if i == 11 {
        17
    } else if i == 12 {
        19
    } else if i == 13 {
        23
    } else if i == 14 {
        27
    } else if i == 15 {
        31
    } else if i == 16 {
        35
    } else if i == 17 {
        43
    } else if i == 18 {
        51
    } else if i == 19 {
        59
    } else if i == 20 {
        67
    } else if i == 21 {
        83
    } else if i == 22 {
        99
    } else if i == 23 {
        115
    } else if i == 24 {
        131
    } else if i == 25 {
        163
    } else if i == 26 {
        195
    } else if i == 27 {
        227
    } else {
        258
    }
}

/// The number of extra bits after length symbol `257 + i`.
pub open spec fn length_extra(i: int) -> nat {
    if i == 0 {
        0
    } else if i == 1 {
        0
    } else if i == 2 {
        0
    } else if i == 3 {
        0
    } else if i == 4 {
        0
    } else if i == 5 {
        0
    } else if i == 6 {
        0
    } else if i == 7 {
        0
    } else if i == 8 {
        1
    } else if i == 9 {
        1
    } else if i == 10 {
        1
    } else if i == 11 {
        1
    } else if i == 12 {
        2
    } else if i == 13 {
        2
    } else if i == 14 {
        2
    } else if i == 15 {
        2
    } else if i == 16 {
        3
    } else if i == 17 {
        3
    } else if i == 18 {
        3
    } else if i == 19 {
        3
    } else if i == 20 {
        4
    } else if i == 21 {
        4
    } else if i == 22 {
        4
    } else if i == 23 {
        4
    } else if i == 24 {
        5
    } else if i == 25 {
        5
    } else if i == 26 {
        5
    } else if i == 27 {
        5
    } else {
        0
    }
}

/// The smallest distance coded by distance symbol `i`.
pub open spec fn dist_base(i: int) -> nat {
    if i == 0 {
        1
    } else if i == 1 {
        2
    } else if i == 2 {
        3
    } else if i == 3 {
        4
    } else if i == 4 {
        5
    } else if i == 5 {
        7
    } else if i == 6 {
        9
    } else if i == 7 {
        13
    } else if i == 8 {
        17
    } else if i == 9 {
        25
    } else if i == 10 {
        33
    } else if i == 11 {
        49
    } else if i == 12 {
        65
    } else if i == 13 {
        97
    } else if i == 14 {
        129
    } else if i == 15 {
        193
    } else if i == 16 {
        257
    } else if i == 17 {
        385
    } else if i == 18 {
        513
    } else if i == 19 {
        769
    } else if i == 20 {
        1025
    } else if i == 21 {
        1537
    } else if i == 22 {
        2049
    } else if i == 23 {
        3073
    } else if i == 24 {
        4097
    } else if i == 25 {
        6145
    } else if i == 26 {
        8193
    } else if i == 27 {
        12289
    } else if i == 28 {
        16385
    } else {
        24577
    }
}

/// The number of extra bits after distance symbol `i`.
pub open spec fn dist_extra(i: int) -> nat {
    if i == 0 {
        0
    } else if i == 1 {
        0
    } else if i == 2 {
        0
    } else if i == 3 {
        0
    } else if i == 4 {
        1
    } else if i == 5 {
        1
    } else if i == 6 {
        2
    } else if i == 7 {
        2
    } else if i == 8 {
        3
    } else if i == 9 {
        3
    } else if i == 10 {
        4
    } else if i == 11 {
        4
    } else if i == 12 {
        5
    } else if i == 13 {
        5
    } else if i == 14 {
        6
    } else if i == 15 {
        6
    } else if i == 16 {
        7
    } else if i == 17 {
        7
    } else if i == 18 {
        8
    } else if i == 19 {
        8
    } else if i == 20 {
        9
    } else if i == 21 {
        9
    } else if i == 22 {
        10
    } else if i == 23 {
        10
    } else if i == 24 {
        11
    } else if i == 25 {
        11
    } else if i == 26 {
        12
    } else if i == 27 {
        12
    } else if i == 28 {
        13
    } else {
        13
    }
}

proof fn lemma_length_step(i: int)
    requires
        0 <= i < 27,
    ensures
        length_base(i + 1) == length_base(i) + pow2(length_extra(i)),
{
    lemma2_to64();
    if i == 0 {
    } else if i == 1 {
    } else if i == 2 {
    } else if i == 3 {
    } else if i == 4 {
    } else if i == 5 {
    } else if i == 6 {
    } else if i == 7 {
    } else if i == 8 {
    } else if i == 9 {
    } else if i == 10 {
    } else if i == 11 {
    } else if i == 12 {
    } else if i == 13 {
    } else if i == 14 {
    } else if i == 15 {
    } else if i == 16 {
    } else if i == 17 {
    } else if i == 18 {
    } else if i == 19 {
    } else if i == 20 {
    } else if i == 21 {
    } else if i == 22 {
    } else if i == 23 {
    } else if i == 24 {
    } else if i == 25 {
    } else {
    }
}

proof fn lemma_dist_step(i: int)
    requires
        0 <= i < 29,
    ensures
        dist_base(i + 1) == dist_base(i) + pow2(dist_extra(i)),
{
    lemma2_to64();
    if i == 0 {
    } else if i == 1 {
    } else if i == 2 {
    } else if i == 3 {
    } else if i == 4 {
    } else if i == 5 {
    } else if i == 6 {
    } else if i == 7 {
    } else if i == 8 {
    } else if i == 9 {
    } else if i == 10 {
    } else if i == 11 {
    } else if i == 12 {
    } else if i == 13 {
    } else if i == 14 {
    } else if i == 15 {
    } else if i == 16 {
    } else if i == 17 {
    } else if i == 18 {
    } else if i == 19 {
    } else if i == 20 {
    } else if i == 21 {
    } else if i == 22 {
    } else if i == 23 {
    } else if i == 24 {
    } else if i == 25 {
    } else if i == 26 {
    } else if i == 27 {
    } else {
    }
}

fn length_base_of(i: usize) -> (r: u32)
    requires
        i < 29,
    ensures
        r as nat == length_base(i as int),
{
    match i {
        0 => 3,
        1 => 4,
        2 => 5,
        3 => 6,
        4 => 7,
        5 => 8,
        6 => 9,
        7 => 10,
        8 => 11,
        9 => 13,
        10 => 15,
        11 => 17,
        12 => 19,
        13 => 23,
        14 => 27,
        15 => 31,
        16 => 35,
        17 => 43,
        18 => 51,
        19 => 59,
        20 => 67,
        21 => 83,
        22 => 99,
        23 => 115,
        24 => 131,
        25 => 163,
        26 => 195,
        27 => 227,
        _ => 258,
    }
}

fn length_extra_of(i: usize) -> (r: u32)
    requires
        i < 29,
    ensures
        r as nat == length_extra(i as int),
{
    match i {
        0 => 0,
        1 => 0,
        2 => 0,
        3 => 0,
        4 => 0,
        5 => 0,
        6 => 0,
        7 => 0,
        8 => 1,
        9 => 1,
        10 => 1,
        11 => 1,
        12 => 2,
        13 => 2,
        14 => 2,
        15 => 2,
        16 => 3,
        17 => 3,
        18 => 3,
        19 => 3,
        20 => 4,
        21 => 4,
        22 => 4,
        23 => 4,
        24 => 5,
        25 => 5,
        26 => 5,
        27 => 5,
        _ => 0,
    }
}

fn dist_base_of(i: usize) -> (r: u32)
    requires
        i < 30,
    ensures
        r as nat == dist_base(i as int),
{
    match i {
        0 => 1,
        1 => 2,
        2 => 3,
        3 => 4,
        4 => 5,
        5 => 7,
        6 => 9,
        7 => 13,
        8 => 17,
        9 => 25,
        10 => 33,
        11 => 49,
        12 => 65,
        13 => 97,
        14 => 129,
        15 => 193,
        16 => 257,
        17 => 385,
        18 => 513,
        19 => 769,
        20 => 1025,
        21 => 1537,
        22 => 2049,
        23 => 3073,
        24 => 4097,
        25 => 6145,
        26 => 8193,
        27 => 12289,
        28 => 16385,
        _ => 24577,
    }
}

fn dist_extra_of(i: usize) -> (r: u32)
    requires
        i < 30,
    ensures
        r as nat == dist_extra(i as int),
{
    match i {
        0 => 0,
        1 => 0,
        2 => 0,
        3 => 0,
        4 => 1,
        5 => 1,
        6 => 2,
        7 => 2,
        8 => 3,
        9 => 3,
        10 => 4,
        11 => 4,
        12 => 5,
        13 => 5,
        14 => 6,
        15 => 6,
        16 => 7,
        17 => 7,
        18 => 8,
        19 => 8,
        20 => 9,
        21 => 9,
        22 => 10,
        23 => 10,
        24 => 11,
        25 => 11,
        26 => 12,
        27 => 12,
        28 => 13,
        _ => 13,
    }
}

/// The index of the length symbol of a match length: the last entry whose base it reaches
/// (length 258 has a symbol of its own).
pub open spec fn length_index(len: nat) -> nat {
    if len == 258 {
        28
    } else {
        length_index_from(len, 0)
    }
}

pub open spec fn length_index_from(len: nat, i: nat) -> nat
    decreases 27 - i,
{
    if i < 27 && length_base(i + 1 as int) <= len {
        length_index_from(len, i + 1)
    } else {
        i
    }
}

/// The index of the distance symbol of a distance: the last entry whose base it reaches.
pub open spec fn dist_index(dist: nat) -> nat {
    dist_index_from(dist, 0)
}

pub open spec fn dist_index_from(dist: nat, i: nat) -> nat
    decreases 29 - i,
{
    if i < 29 && dist_base(i + 1 as int) <= dist {
        dist_index_from(dist, i + 1)
    } else {
        i
    }
}

/// How a match length is coded: length symbol `257 + index`, then `extra_len` extra bits
/// holding `extra`.
pub open spec fn length_code_ok(len: nat, index: nat, extra: nat, extra_len: nat) -> bool {
    &&& index < 29
    &&& extra_len == length_extra(index as int)
    &&& length_base(index as int) + extra == len
    &&& extra < pow2(extra_len)
    &&& (index == 28 <==> len == 258)
}

/// How a distance is coded: distance symbol `index`, then `extra_len` extra bits
/// holding `extra`.
pub open spec fn dist_code_ok(dist: nat, index: nat, extra: nat, extra_len: nat) -> bool {
    &&& index < 30
    &&& extra_len == dist_extra(index as int)
    &&& dist_base(index as int) + extra == dist
    &&& extra < pow2(extra_len)
}

/// The length symbol index (0 for symbol 257), extra value and extra bit count of a match length.
pub fn length_code(len: u16) -> (r: (usize, u32, u32))
    requires
        3 <= len <= 258,
    ensures
        length_code_ok(len as nat, r.0 as nat, r.1 as nat, r.2 as nat),
        r.0 == length_index(len as nat),
{
    proof {
        lemma2_to64();
    }
    if len == 258 {
        return (28, 0, 0);
    }
    let mut i: usize = 0;
    while i < 27 && length_base_of(i + 1) <= len as u32
        invariant
            i <= 27,
            length_base(i as int) <= len,
            len < 258,
            length_index_from(len as nat, i as nat) == length_index(len as nat),
        decreases 27 - i,
    {
        i = i + 1;
    }
    if i < 27 {
        proof {
            lemma_length_step(i as int);
        }
    }
    let base = length_base_of(i);
    (i, len as u32 - base, length_extra_of(i))
}

/// The distance symbol, extra value and extra bit count of a distance.
pub fn dist_code(dist: u16) -> (r: (usize, u32, u32))
    requires
        1 <= dist <= 32768,
    ensures
        dist_code_ok(dist as nat, r.0 as nat, r.1 as nat, r.2 as nat),
        r.0 == dist_index(dist as nat),
{
    proof {
        lemma2_to64();
    }
    let mut i: usize = 0;
    while i < 29 && dist_base_of(i + 1) <= dist as u32
        invariant
            i <= 29,
            dist_base(i as int) <= dist,
            dist_index_from(dist as nat, i as nat) == dist_index(dist as nat),
        decreases 29 - i,
    {
        i = i + 1;
    }
    if i < 29 {
        proof {
            lemma_dist_step(i as int);
        }
    }
    let base = dist_base_of(i);
    (i, dist as u32 - base, dist_extra_of(i))
}

} // verus!
