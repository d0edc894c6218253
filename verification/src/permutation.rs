//! Mathematical definition of the Xoodoo permutation.
//!
//! A state is a sequence of twelve 32-bit words, read as three planes of four
//! words each: plane A is words 0..4, plane B is words 4..8 and plane C is
//! words 8..12. Everything the executable engines compute is stated against
//! the functions of this module.

use vstd::prelude::*;

verus! {

/// Largest supported number of rounds.
pub const MAX_ROUNDS: usize = 12;

/// Round constants, indexed by the number of rounds that are still to run
/// after the round that uses them.
pub const ROUND_KEYS: [u32; 12] = [
    0x012, 0x1a0, 0x0f0, 0x380, 0x02c, 0x060, 0x014, 0x120, 0x0d0, 0x3c0, 0x038, 0x058,
];

/// The all-zero state.
pub open spec fn zero_state() -> Seq<u32> {
    Seq::new(12, |k: int| 0u32)
}

/// `w` rotated left by `n` bit positions, for `0 < n < 32`.
pub open spec fn rotl(w: u32, n: u32) -> u32 {
    (w << n) | (w >> ((32 - n) as u32))
}

/// The column of word `k`.
pub open spec fn column_of(k: int) -> int {
    if k < 4 {
        k
    } else if k < 8 {
        k - 4
    } else {
        k - 8
    }
}

/// The column one position before column `x`, cyclically.
pub open spec fn west_of(x: int) -> int {
    if x == 0 {
        3
    } else {
        x - 1
    }
}

/// The column two positions from column `x`, cyclically.
pub open spec fn across_of(x: int) -> int {
    if x < 2 {
        x + 2
    } else {
        x - 2
    }
}

/// XOR of the three words of column `x`.
pub open spec fn column_parity(s: Seq<u32>, x: int) -> u32 {
    s[x] ^ s[4 + x] ^ s[8 + x]
}

/// The word that theta adds to every word of column `x`: the parity of the
/// neighbouring column, folded with two rotations of itself.
pub open spec fn theta_mix(s: Seq<u32>, x: int) -> u32 {
    let p = column_parity(s, west_of(x));
    rotl(p, 5) ^ rotl(p, 14)
}

/// Theta: the column parity mixer.
pub open spec fn theta(s: Seq<u32>) -> Seq<u32> {
    Seq::new(12, |k: int| s[k] ^ theta_mix(s, column_of(k)))
}

/// Rho-west: plane B moves one word position, every word of plane C is
/// rotated by 11 bits.
pub open spec fn rho_west(s: Seq<u32>) -> Seq<u32> {
    Seq::new(
        12,
        |k: int|
            if k < 4 {
                s[k]
            } else if k < 8 {
                s[4 + west_of(k - 4)]
            } else {
                rotl(s[k], 11)
            },
    )
}

/// Iota: the round constant is added to word 0 of plane A.
pub open spec fn iota(s: Seq<u32>, rc: u32) -> Seq<u32> {
    s.update(0, s[0] ^ rc)
}

/// New word of plane A in column `x` after chi.
pub open spec fn chi_a(s: Seq<u32>, x: int) -> u32 {
    s[x] ^ (!s[4 + x] & s[8 + x])
}

/// New word of plane B in column `x` after chi; it reads the new plane A.
pub open spec fn chi_b(s: Seq<u32>, x: int) -> u32 {
    s[4 + x] ^ (!s[8 + x] & chi_a(s, x))
}

/// New word of plane C in column `x` after chi; it reads the new planes A
/// and B.
pub open spec fn chi_c(s: Seq<u32>, x: int) -> u32 {
    s[8 + x] ^ (!chi_a(s, x) & chi_b(s, x))
}

/// Chi: the non-linear layer, plane after plane.
pub open spec fn chi(s: Seq<u32>) -> Seq<u32> {
    Seq::new(
        12,
        |k: int|
            if k < 4 {
                chi_a(s, k)
            } else if k < 8 {
                chi_b(s, k - 4)
            } else {
                chi_c(s, k - 8)
            },
    )
}

/// Rho-east: every word of plane B is rotated by 1 bit; plane C moves two
/// word positions and every word of it is rotated by 8 bits.
pub open spec fn rho_east(s: Seq<u32>) -> Seq<u32> {
    Seq::new(
        12,
        |k: int|
            if k < 4 {
                s[k]
            } else if k < 8 {
                rotl(s[k], 1)
            } else {
                rotl(s[8 + across_of(k - 8)], 8)
            },
    )
}

/// One round with round constant `rc`.
pub open spec fn round_function(s: Seq<u32>, rc: u32) -> Seq<u32> {
    rho_east(chi(iota(rho_west(theta(s)), rc)))
}

/// The round constant used when `remaining` further rounds follow.
pub open spec fn round_key(remaining: int) -> u32 {
    ROUND_KEYS@[remaining]
}

/// The permutation with `rounds` rounds: the round that uses
/// `round_key(rounds - 1)` runs first, the one that uses `round_key(0)` last.
pub open spec fn permutation(s: Seq<u32>, rounds: nat) -> Seq<u32>
    decreases rounds,
{
    if rounds == 0 {
        s
    } else {
        permutation(round_function(s, round_key(rounds - 1)), (rounds - 1) as nat)
    }
}

/// Two states are equal when their twelve words are.
pub proof fn lemma_same_words(s: Seq<u32>, t: Seq<u32>)
    requires
        s.len() == 12,
        t.len() == 12,
        s[0] == t[0],
        s[1] == t[1],
        s[2] == t[2],
        s[3] == t[3],
        s[4] == t[4],
        s[5] == t[5],
        s[6] == t[6],
        s[7] == t[7],
        s[8] == t[8],
        s[9] == t[9],
        s[10] == t[10],
        s[11] == t[11],
    ensures
        s == t,
{
    assert(s =~= t);
}

} // verus!
