//! The eight-lane engine.
//!
//! Eight independent states are permuted together: a register holds one
//! word of all eight states. The word moves of rho-west and rho-east are
//! not carried out on the data but recorded in an index table that says,
//! round by round, which register holds which word. The words are loaded
//! where the table of the first round expects them, every round leaves
//! them where the table of the next round expects them, and the last round
//! leaves word `k` in register `k`.

use super::Xoodoo;
use crate::permutation::{
    across_of, chi, iota, lemma_same_words, permutation, rho_east, rho_west, rotl,
    round_function, round_key, theta, MAX_ROUNDS, ROUND_KEYS,
};
use crate::wipe::wipe_words;
use vstd::prelude::*;

verus! {

/// The state of lane `l` when word `k` of every state is held in register
/// `pos(k)`.
pub open spec fn lane_at(a: [[u32; 8]; 12], pos: spec_fn(int) -> int, l: int) -> Seq<u32> {
    Seq::new(12, |k: int| a[pos(k)][l])
}

/// An index table is valid when its first four entries name the registers
/// of plane B, each once, its next four entries name the same registers
/// moved by one position, and its last four entries name the registers of
/// plane C, each once.
pub open spec fn table_ok(i: [usize; 12]) -> bool {
    &&& 4 <= i[0] < 8 && 4 <= i[1] < 8 && 4 <= i[2] < 8 && 4 <= i[3] < 8
    &&& i[0] != i[1] && i[0] != i[2] && i[0] != i[3]
    &&& i[1] != i[2] && i[1] != i[3] && i[2] != i[3]
    &&& i[4] == i[3] && i[5] == i[0] && i[6] == i[1] && i[7] == i[2]
    &&& 8 <= i[8] < 12 && 8 <= i[9] < 12 && 8 <= i[10] < 12 && 8 <= i[11] < 12
    &&& i[8] != i[9] && i[8] != i[10] && i[8] != i[11]
    &&& i[9] != i[10] && i[9] != i[11] && i[10] != i[11]
}

/// Where the words are when a round starts.
pub open spec fn layout_in(i: [usize; 12]) -> spec_fn(int) -> int {
    |k: int|
        if k < 4 {
            k
        } else if k < 8 {
            i[k - 4] as int
        } else {
            i[k] as int
        }
}

/// Where the words are between rho-west and rho-east.
pub open spec fn layout_mid(i: [usize; 12]) -> spec_fn(int) -> int {
    |k: int|
        if k < 4 {
            k
        } else {
            i[k] as int
        }
}

/// Where the words are when a round ends.
pub open spec fn layout_out(i: [usize; 12]) -> spec_fn(int) -> int {
    |k: int|
        if k < 4 {
            k
        } else if k < 8 {
            i[k] as int
        } else {
            i[8 + across_of(k - 8)] as int
        }
}

/// The layout in which register `k` holds word `k`.
pub open spec fn layout_plain() -> spec_fn(int) -> int {
    |k: int| k
}

/// Lane-wise XOR.
fn xor(x: [u32; 8], y: [u32; 8]) -> (r: [u32; 8])
    ensures
        forall|l: int| 0 <= l < 8 ==> #[trigger] r[l] == x[l] ^ y[l],
{
    [
        x[0] ^ y[0],
        x[1] ^ y[1],
        x[2] ^ y[2],
        x[3] ^ y[3],
        x[4] ^ y[4],
        x[5] ^ y[5],
        x[6] ^ y[6],
        x[7] ^ y[7],
    ]
}

/// Lane-wise `!x & y`.
fn and_not(x: [u32; 8], y: [u32; 8]) -> (r: [u32; 8])
    ensures
        forall|l: int| 0 <= l < 8 ==> #[trigger] r[l] == !x[l] & y[l],
{
    [
        !x[0] & y[0],
        !x[1] & y[1],
        !x[2] & y[2],
        !x[3] & y[3],
        !x[4] & y[4],
        !x[5] & y[5],
        !x[6] & y[6],
        !x[7] & y[7],
    ]
}

/// Lane-wise rotation to the left by `n` bits.
fn rotate(x: [u32; 8], n: u32) -> (r: [u32; 8])
    requires
        0 < n < 32,
    ensures
        forall|l: int| 0 <= l < 8 ==> #[trigger] r[l] == rotl(x[l], n),
{
    [
        (x[0] << n) | (x[0] >> (32 - n)),
        (x[1] << n) | (x[1] >> (32 - n)),
        (x[2] << n) | (x[2] >> (32 - n)),
        (x[3] << n) | (x[3] >> (32 - n)),
        (x[4] << n) | (x[4] >> (32 - n)),
        (x[5] << n) | (x[5] >> (32 - n)),
        (x[6] << n) | (x[6] >> (32 - n)),
        (x[7] << n) | (x[7] >> (32 - n)),
    ]
}

/// Lane-wise rotation by one byte, the bit part of rho-east on plane C.
fn rotate_rho(x: [u32; 8]) -> (r: [u32; 8])
    ensures
        forall|l: int| 0 <= l < 8 ==> #[trigger] r[l] == rotl(x[l], 8),
{
    rotate(x, 8)
}

/// XORs `e` into the three registers of one column.
fn mix_column(a: &mut [[u32; 8]; 12], ra: usize, rb: usize, rc: usize, e: [u32; 8])
    requires
        ra < 4,
        4 <= rb < 8,
        8 <= rc < 12,
    ensures
        forall|l: int| 0 <= l < 8 ==> #[trigger] final(a)[ra as int][l] == old(a)[ra as int][l] ^ e[l],
        forall|l: int| 0 <= l < 8 ==> #[trigger] final(a)[rb as int][l] == old(a)[rb as int][l] ^ e[l],
        forall|l: int| 0 <= l < 8 ==> #[trigger] final(a)[rc as int][l] == old(a)[rc as int][l] ^ e[l],
        forall|k: int|
            0 <= k < 12 && k != ra && k != rb && k != rc ==> #[trigger] final(a)[k] == old(a)[k],
{
    a[ra] = xor(a[ra], e);
    a[rb] = xor(a[rb], e);
    a[rc] = xor(a[rc], e);
}

/// Lane-wise parity of the three registers of one column.
fn parity(a: &[[u32; 8]; 12], ra: usize, rb: usize, rc: usize) -> (p: [u32; 8])
    requires
        ra < 12,
        rb < 12,
        rc < 12,
    ensures
        forall|l: int|
            0 <= l < 8 ==> #[trigger] p[l] == a[ra as int][l] ^ a[rb as int][l] ^ a[rc as int][l],
{
    xor(xor(a[ra], a[rb]), a[rc])
}

/// Lane-wise `rotl(p, 5) ^ rotl(p, 14)`.
fn fold(p: [u32; 8]) -> (e: [u32; 8])
    ensures
        forall|l: int| 0 <= l < 8 ==> #[trigger] e[l] == rotl(p[l], 5) ^ rotl(p[l], 14),
{
    xor(rotate(p, 5), rotate(p, 14))
}

/// Theta on all lanes.
fn theta_step(a: &mut [[u32; 8]; 12], i: &[usize; 12])
    requires
        table_ok(*i),
    ensures
        forall|l: int|
            0 <= l < 8 ==> #[trigger] lane_at(*final(a), layout_in(*i), l) == theta(
                lane_at(*old(a), layout_in(*i), l),
            ),
{
    let mut v1 = parity(a, 3, i[3], i[11]);
    let mut v2 = parity(a, 0, i[0], i[8]);
    v1 = fold(v1);
    mix_column(a, 0, i[0], i[8], v1);
    let ghost a0 = *a;
    v1 = parity(a, 1, i[1], i[9]);
    v2 = fold(v2);
    mix_column(a, 1, i[1], i[9], v2);
    let ghost a1 = *a;
    v2 = parity(a, 2, i[2], i[10]);
    v1 = fold(v1);
    mix_column(a, 2, i[2], i[10], v1);
    let ghost a2 = *a;
    v2 = fold(v2);
    mix_column(a, 3, i[3], i[11], v2);
    proof {
        assert forall|l: int| 0 <= l < 8 implies #[trigger] lane_at(*a, layout_in(*i), l) == theta(
            lane_at(*old(a), layout_in(*i), l),
        ) by {
            let s = lane_at(*old(a), layout_in(*i), l);
            let t = lane_at(*a, layout_in(*i), l);
            assert(t[0] == a0[0][l] && t[4] == a0[i[0] as int][l] && t[8] == a0[i[8] as int][l]);
            assert(t[1] == a1[1][l] && t[5] == a1[i[1] as int][l] && t[9] == a1[i[9] as int][l]);
            assert(t[2] == a2[2][l] && t[6] == a2[i[2] as int][l] && t[10] == a2[i[10] as int][l]);
            lemma_same_words(t, theta(s));
        }
    }
}

/// Rho-west on all lanes: plane C is rotated in place, the move of plane B
/// is left to the index table.
fn rho_west_step(a: &mut [[u32; 8]; 12], i: &[usize; 12])
    requires
        table_ok(*i),
    ensures
        forall|l: int|
            0 <= l < 8 ==> #[trigger] lane_at(*final(a), layout_mid(*i), l) == rho_west(
                lane_at(*old(a), layout_in(*i), l),
            ),
{
    a[i[8]] = rotate(a[i[8]], 11);
    a[i[9]] = rotate(a[i[9]], 11);
    a[i[10]] = rotate(a[i[10]], 11);
    a[i[11]] = rotate(a[i[11]], 11);
    proof {
        assert forall|l: int| 0 <= l < 8 implies #[trigger] lane_at(*a, layout_mid(*i), l)
            == rho_west(lane_at(*old(a), layout_in(*i), l)) by {
            lemma_same_words(
                lane_at(*a, layout_mid(*i), l),
                rho_west(lane_at(*old(a), layout_in(*i), l)),
            );
        }
    }
}

/// Iota on all lanes.
fn iota_step(a: &mut [[u32; 8]; 12], i: &[usize; 12], rc: u32)
    requires
        table_ok(*i),
    ensures
        forall|l: int|
            0 <= l < 8 ==> #[trigger] lane_at(*final(a), layout_mid(*i), l) == iota(
                lane_at(*old(a), layout_mid(*i), l),
                rc,
            ),
{
    a[0] = xor(a[0], [rc, rc, rc, rc, rc, rc, rc, rc]);
    proof {
        assert forall|l: int| 0 <= l < 8 implies #[trigger] lane_at(*a, layout_mid(*i), l) == iota(
            lane_at(*old(a), layout_mid(*i), l),
            rc,
        ) by {
            lemma_same_words(
                lane_at(*a, layout_mid(*i), l),
                iota(lane_at(*old(a), layout_mid(*i), l), rc),
            );
        }
    }
}

/// Chi on all lanes, plane after plane.
fn chi_step(a: &mut [[u32; 8]; 12], i: &[usize; 12])
    requires
        table_ok(*i),
    ensures
        forall|l: int|
            0 <= l < 8 ==> #[trigger] lane_at(*final(a), layout_mid(*i), l) == chi(
                lane_at(*old(a), layout_mid(*i), l),
            ),
{
    a[0] = xor(a[0], and_not(a[i[4]], a[i[8]]));
    a[1] = xor(a[1], and_not(a[i[5]], a[i[9]]));
    a[2] = xor(a[2], and_not(a[i[6]], a[i[10]]));
    a[3] = xor(a[3], and_not(a[i[7]], a[i[11]]));
    a[i[4]] = xor(a[i[4]], and_not(a[i[8]], a[0]));
    a[i[5]] = xor(a[i[5]], and_not(a[i[9]], a[1]));
    a[i[6]] = xor(a[i[6]], and_not(a[i[10]], a[2]));
    a[i[7]] = xor(a[i[7]], and_not(a[i[11]], a[3]));
    a[i[8]] = xor(a[i[8]], and_not(a[0], a[i[4]]));
    a[i[9]] = xor(a[i[9]], and_not(a[1], a[i[5]]));
    a[i[10]] = xor(a[i[10]], and_not(a[2], a[i[6]]));
    a[i[11]] = xor(a[i[11]], and_not(a[3], a[i[7]]));
    proof {
        assert forall|l: int| 0 <= l < 8 implies #[trigger] lane_at(*a, layout_mid(*i), l) == chi(
            lane_at(*old(a), layout_mid(*i), l),
        ) by {
            lemma_same_words(
                lane_at(*a, layout_mid(*i), l),
                chi(lane_at(*old(a), layout_mid(*i), l)),
            );
        }
    }
}

/// Rho-east on all lanes: planes B and C are rotated in place, the move of
/// plane C is left to the index table.
fn rho_east_step(a: &mut [[u32; 8]; 12], i: &[usize; 12])
    requires
        table_ok(*i),
    ensures
        forall|l: int|
            0 <= l < 8 ==> #[trigger] lane_at(*final(a), layout_out(*i), l) == rho_east(
                lane_at(*old(a), layout_mid(*i), l),
            ),
{
    a[i[4]] = rotate(a[i[4]], 1);
    a[i[5]] = rotate(a[i[5]], 1);
    a[i[6]] = rotate(a[i[6]], 1);
    a[i[7]] = rotate(a[i[7]], 1);
    a[i[8]] = rotate_rho(a[i[8]]);
    a[i[9]] = rotate_rho(a[i[9]]);
    a[i[10]] = rotate_rho(a[i[10]]);
    a[i[11]] = rotate_rho(a[i[11]]);
    proof {
        assert forall|l: int| 0 <= l < 8 implies #[trigger] lane_at(*a, layout_out(*i), l)
            == rho_east(lane_at(*old(a), layout_mid(*i), l)) by {
            lemma_same_words(
                lane_at(*a, layout_out(*i), l),
                rho_east(lane_at(*old(a), layout_mid(*i), l)),
            );
        }
    }
}

/// One round on all lanes, with the registers named by the index table `i`.
fn round(a: &mut [[u32; 8]; 12], i: [usize; 12], rc: u32)
    requires
        table_ok(i),
    ensures
        forall|l: int|
            0 <= l < 8 ==> #[trigger] lane_at(*final(a), layout_out(i), l) == round_function(
                lane_at(*old(a), layout_in(i), l),
                rc,
            ),
{
    theta_step(a, &i);
    rho_west_step(a, &i);
    iota_step(a, &i, rc);
    chi_step(a, &i);
    rho_east_step(a, &i);
}

/// The four index tables. A round that starts with the words where table
/// `t` expects them leaves them where the next table expects them; after
/// table 3 comes table 0, which expects word `k` in register `k`.
pub const TABLES: [[usize; 12]; 4] = [
    [4, 5, 6, 7, 7, 4, 5, 6, 8, 9, 10, 11],
    [7, 4, 5, 6, 6, 7, 4, 5, 10, 11, 8, 9],
    [6, 7, 4, 5, 5, 6, 7, 4, 8, 9, 10, 11],
    [5, 6, 7, 4, 4, 5, 6, 7, 10, 11, 8, 9],
];

/// The table before table `t`, cyclically.
pub open spec fn table_before(t: int) -> int {
    if t == 0 {
        3
    } else {
        t - 1
    }
}

/// The table that the first of `rounds` rounds uses, chosen so that the
/// last round uses table 3; for no rounds, table 0.
pub open spec fn first_table(rounds: nat) -> int
    decreases rounds,
{
    if rounds == 0 {
        0
    } else {
        table_before(first_table((rounds - 1) as nat))
    }
}

/// Every table is valid, and each hands the words over to the next.
proof fn lemma_tables(t: int)
    requires
        0 <= t < 4,
    ensures
        table_ok(TABLES[t]),
        forall|k: int|
            0 <= k < 12 ==> layout_out(TABLES[table_before(t)])(k) == #[trigger] layout_in(
                TABLES[t],
            )(k),
        forall|k: int| 0 <= k < 12 ==> #[trigger] layout_in(TABLES[0])(k) == k,
{
}

/// `first_table` stays within the four tables.
proof fn lemma_first_table_range(rounds: nat)
    ensures
        0 <= first_table(rounds) < 4,
    decreases rounds,
{
    if rounds > 0 {
        lemma_first_table_range((rounds - 1) as nat);
    }
}

/// Word `i` of the eight states.
fn load(st: &[[u32; 12]; 8], i: usize) -> (v: [u32; 8])
    requires
        i < 12,
    ensures
        forall|l: int| 0 <= l < 8 ==> #[trigger] v[l] == st[l][i as int],
{
    [st[0][i], st[1][i], st[2][i], st[3][i], st[4][i], st[5][i], st[6][i], st[7][i]]
}

/// Writes word `i` of the eight states.
fn store(st: &mut [[u32; 12]; 8], i: usize, v: [u32; 8])
    requires
        i < 12,
    ensures
        forall|l: int|
            0 <= l < 8 ==> (#[trigger] final(st)[l])@ == old(st)[l]@.update(i as int, v[l]),
{
    st[0][i] = v[0];
    st[1][i] = v[1];
    st[2][i] = v[2];
    st[3][i] = v[3];
    st[4][i] = v[4];
    st[5][i] = v[5];
    st[6][i] = v[6];
    st[7][i] = v[7];
}

/// Permutes eight states with `rounds` rounds; `first` is the table of the
/// first round.
fn permute_lanes(st: &mut [[u32; 12]; 8], rounds: usize, first: usize)
    requires
        rounds <= MAX_ROUNDS,
        first == first_table(rounds as nat),
    ensures
        forall|l: int|
            0 <= l < 8 ==> (#[trigger] final(st)[l])@ == permutation(old(st)[l]@, rounds as nat),
{
    proof {
        lemma_first_table_range(rounds as nat);
        lemma_tables(first as int);
    }
    let entry = TABLES[first];
    let zero = [0u32; 8];
    let mut a: [[u32; 8]; 12] = [
        zero, zero, zero, zero, zero, zero, zero, zero, zero, zero, zero, zero,
    ];
    a[0] = load(st, 0);
    a[1] = load(st, 1);
    a[2] = load(st, 2);
    a[3] = load(st, 3);
    a[entry[0]] = load(st, 4);
    a[entry[1]] = load(st, 5);
    a[entry[2]] = load(st, 6);
    a[entry[3]] = load(st, 7);
    a[entry[8]] = load(st, 8);
    a[entry[9]] = load(st, 9);
    a[entry[10]] = load(st, 10);
    a[entry[11]] = load(st, 11);
    proof {
        assert forall|l: int| 0 <= l < 8 implies #[trigger] lane_at(a, layout_in(entry), l)
            == old(st)[l]@ by {
            lemma_same_words(lane_at(a, layout_in(entry), l), old(st)[l]@);
        }
    }
    let mut left: usize = rounds;
    let mut t: usize = first;
    while left > 0
        invariant
            left <= rounds <= 12,
            t == first_table(left as nat),
            0 <= t < 4,
            forall|l: int|
                0 <= l < 8 ==> permutation(
                    #[trigger] lane_at(a, layout_in(TABLES[t as int]), l),
                    left as nat,
                ) == permutation(old(st)[l]@, rounds as nat),
        decreases left,
    {
        let ghost before = a;
        let next: usize = if t == 3 {
            0
        } else {
            t + 1
        };
        proof {
            lemma_first_table_range((left - 1) as nat);
            lemma_tables(t as int);
            lemma_tables(next as int);
        }
        round(&mut a, TABLES[t], ROUND_KEYS[left - 1]);
        proof {
            assert forall|l: int| 0 <= l < 8 implies permutation(
                #[trigger] lane_at(a, layout_in(TABLES[next as int]), l),
                (left - 1) as nat,
            ) == permutation(old(st)[l]@, rounds as nat) by {
                let x = lane_at(before, layout_in(TABLES[t as int]), l);
                assert(lane_at(a, layout_in(TABLES[next as int]), l) =~= lane_at(
                    a,
                    layout_out(TABLES[t as int]),
                    l,
                ));
                assert(permutation(x, left as nat) == permutation(
                    round_function(x, round_key(left - 1)),
                    (left - 1) as nat,
                ));
            }
        }
        left = left - 1;
        t = next;
    }
    proof {
        lemma_tables(0);
        assert forall|l: int| 0 <= l < 8 implies lane_at(a, layout_plain(), l) == permutation(
            old(st)[l]@,
            rounds as nat,
        ) by {
            assert(lane_at(a, layout_plain(), l) =~= lane_at(a, layout_in(TABLES[0]), l));
        }
    }
    store(st, 0, a[0]);
    store(st, 1, a[1]);
    store(st, 2, a[2]);
    store(st, 3, a[3]);
    store(st, 4, a[4]);
    store(st, 5, a[5]);
    store(st, 6, a[6]);
    store(st, 7, a[7]);
    store(st, 8, a[8]);
    store(st, 9, a[9]);
    store(st, 10, a[10]);
    store(st, 11, a[11]);
    proof {
        assert forall|l: int| 0 <= l < 8 implies (#[trigger] st[l])@ == permutation(
            old(st)[l]@,
            rounds as nat,
        ) by {
            lemma_same_words(st[l]@, lane_at(a, layout_plain(), l));
        }
    }
    let mut k: usize = 0;
    while k < 12
        invariant
            k <= 12,
        decreases 12 - k,
    {
        wipe_words(&mut a[k]);
        k += 1;
    }
}

impl Xoodoo<8, 6> {
    /// Applies the six-round permutation to each of the eight lanes.
    pub fn permute(&mut self)
        ensures
            final(self)@.len() == 8,
            forall|l: int| 0 <= l < 8 ==> #[trigger] final(self)@[l] == permutation(old(self)@[l], 6),
    {
        proof {
            reveal_with_fuel(first_table, 7);
        }
        permute_lanes(&mut self.st, 6, 2);
    }
}

impl Xoodoo<8, 12> {
    /// Applies the twelve-round permutation to each of the eight lanes.
    pub fn permute(&mut self)
        ensures
            final(self)@.len() == 8,
            forall|l: int| 0 <= l < 8 ==> #[trigger] final(self)@[l] == permutation(old(self)@[l], 12),
    {
        proof {
            reveal_with_fuel(first_table, 13);
        }
        permute_lanes(&mut self.st, 12, 0);
    }
}

} // verus!
