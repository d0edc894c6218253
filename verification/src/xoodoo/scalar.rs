//! The single-lane engine.
//!
//! The state is held as three planes of four words; every step of a round
//! works on whole planes.

use super::Xoodoo;
use crate::wipe::wipe_words;
use crate::permutation::{
    chi, iota, lemma_same_words, permutation, rho_east, rho_west, rotl, round_function,
    round_key, theta, MAX_ROUNDS, ROUND_KEYS,
};
use vstd::prelude::*;

verus! {

/// The state made of planes `a`, `b` and `c`.
pub open spec fn planes(a: [u32; 4], b: [u32; 4], c: [u32; 4]) -> Seq<u32> {
    Seq::new(
        12,
        |k: int|
            if k < 4 {
                a[k]
            } else if k < 8 {
                b[k - 4]
            } else {
                c[k - 8]
            },
    )
}

/// Word-wise XOR of two planes.
fn xor(x: [u32; 4], y: [u32; 4]) -> (r: [u32; 4])
    ensures
        r[0] == x[0] ^ y[0],
        r[1] == x[1] ^ y[1],
        r[2] == x[2] ^ y[2],
        r[3] == x[3] ^ y[3],
{
    [x[0] ^ y[0], x[1] ^ y[1], x[2] ^ y[2], x[3] ^ y[3]]
}

/// Word-wise `!x & y` of two planes.
fn and_not(x: [u32; 4], y: [u32; 4]) -> (r: [u32; 4])
    ensures
        r[0] == !x[0] & y[0],
        r[1] == !x[1] & y[1],
        r[2] == !x[2] & y[2],
        r[3] == !x[3] & y[3],
{
    [!x[0] & y[0], !x[1] & y[1], !x[2] & y[2], !x[3] & y[3]]
}

/// Every word of a plane rotated to the left by `n` bits.
fn rotate(x: [u32; 4], n: u32) -> (r: [u32; 4])
    requires
        0 < n < 32,
    ensures
        r[0] == rotl(x[0], n),
        r[1] == rotl(x[1], n),
        r[2] == rotl(x[2], n),
        r[3] == rotl(x[3], n),
{
    [
        (x[0] << n) | (x[0] >> (32 - n)),
        (x[1] << n) | (x[1] >> (32 - n)),
        (x[2] << n) | (x[2] >> (32 - n)),
        (x[3] << n) | (x[3] >> (32 - n)),
    ]
}

/// A plane moved by one word position: word `x` comes from word `x - 1`.
fn shift_one(x: [u32; 4]) -> (r: [u32; 4])
    ensures
        r[0] == x[3],
        r[1] == x[0],
        r[2] == x[1],
        r[3] == x[2],
{
    [x[3], x[0], x[1], x[2]]
}

/// A plane moved by two word positions.
fn shift_two(x: [u32; 4]) -> (r: [u32; 4])
    ensures
        r[0] == x[2],
        r[1] == x[3],
        r[2] == x[0],
        r[3] == x[1],
{
    [x[2], x[3], x[0], x[1]]
}

/// One round on the three planes.
fn round(a: &mut [u32; 4], b: &mut [u32; 4], c: &mut [u32; 4], rc: u32)
    ensures
        planes(*final(a), *final(b), *final(c)) == round_function(
            planes(*old(a), *old(b), *old(c)),
            rc,
        ),
{
    let ghost s0 = planes(*a, *b, *c);
    let p = shift_one(xor(xor(*a, *b), *c));
    let e = xor(rotate(p, 5), rotate(p, 14));
    *a = xor(*a, e);
    *b = xor(*b, e);
    *c = xor(*c, e);
    proof {
        lemma_same_words(planes(*a, *b, *c), theta(s0));
    }
    let ghost s1 = planes(*a, *b, *c);
    *b = shift_one(*b);
    *c = rotate(*c, 11);
    proof {
        lemma_same_words(planes(*a, *b, *c), rho_west(s1));
    }
    let ghost s2 = planes(*a, *b, *c);
    a[0] = a[0] ^ rc;
    proof {
        lemma_same_words(planes(*a, *b, *c), iota(s2, rc));
    }
    let ghost s3 = planes(*a, *b, *c);
    *a = xor(*a, and_not(*b, *c));
    *b = xor(*b, and_not(*c, *a));
    *c = xor(*c, and_not(*a, *b));
    proof {
        lemma_same_words(planes(*a, *b, *c), chi(s3));
    }
    let ghost s4 = planes(*a, *b, *c);
    *b = rotate(*b, 1);
    *c = shift_two(rotate(*c, 8));
    proof {
        lemma_same_words(planes(*a, *b, *c), rho_east(s4));
    }
}

impl<const R: usize> Xoodoo<1, R> {
    /// Applies the `R`-round permutation to the state.
    pub fn permute(&mut self)
        requires
            R <= MAX_ROUNDS,
        ensures
            final(self)@.len() == 1,
            final(self)@[0] == permutation(old(self)@[0], R as nat),
    {
        let mut a: [u32; 4] = [self.st[0][0], self.st[0][1], self.st[0][2], self.st[0][3]];
        let mut b: [u32; 4] = [self.st[0][4], self.st[0][5], self.st[0][6], self.st[0][7]];
        let mut c: [u32; 4] = [self.st[0][8], self.st[0][9], self.st[0][10], self.st[0][11]];
        proof {
            lemma_same_words(planes(a, b, c), old(self)@[0]);
        }
        let mut left: usize = R;
        while left > 0
            invariant
                left <= R <= 12,
                permutation(planes(a, b, c), left as nat) == permutation(old(self)@[0], R as nat),
            decreases left,
        {
            let ghost x = planes(a, b, c);
            round(&mut a, &mut b, &mut c, ROUND_KEYS[left - 1]);
            assert(permutation(x, left as nat) == permutation(
                round_function(x, round_key(left - 1)),
                (left - 1) as nat,
            ));
            left = left - 1;
        }
        self.st[0] = [
            a[0], a[1], a[2], a[3], b[0], b[1], b[2], b[3], c[0], c[1], c[2], c[3],
        ];
        proof {
            lemma_same_words(self@[0], planes(a, b, c));
        }
        wipe_words(&mut a);
        wipe_words(&mut b);
        wipe_words(&mut c);
    }
}

} // verus!
