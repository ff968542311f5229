//! The four-lane transposed state and the Groestl round primitives.
//!
//! The state packs the 8x8 byte matrices of 4 independent lanes into 8
//! rows of 32 bytes: row `i` holds, for lane `l` and matrix column `j`,
//! the lane's matrix byte `(i, j)` at position `l * 8 + j`. Every
//! primitive transforms all four lanes in one pass and is proved, for
//! each lane separately, equal to the single-lane model in `model`:
//! lanes never mix.
use vstd::prelude::*;

use crate::model::{
    arc_p_lane, arc_q_lane, col, gf_double, init_lane, mix_col, mix_lane, perm_p, perm_p_rounds,
    perm_q, perm_q_rounds, round_p, round_q, sbox, shift_amount_q, shift_lane, shift_p_lane,
    shift_q_lane, sub_lane, xor_bytes, SBOX,
};

verus! {

/// Eight rows of 32 bytes: the byte-sliced state of four 64-byte lanes.
pub type State = [[u8; 32]; 8];

/// The 64-byte view of lane `l`: byte `k` of the lane sits in row
/// `k % 8` at position `l * 8 + k / 8`.
pub open spec fn lane(s: State, l: int) -> Seq<u8> {
    Seq::new(64, |k: int| s@[k % 8]@[l * 8 + k / 8])
}

/// Division and remainder of a row position by the 8-byte lane stride.
proof fn lemma_stride8(a: int, b: int)
    requires
        0 <= b < 8,
    ensures
        (a * 8 + b) / 8 == a,
        (a * 8 + b) % 8 == b,
{
    assert((a * 8 + b) / 8 == a && (a * 8 + b) % 8 == b) by (nonlinear_arith)
        requires 0 <= b < 8;
}

/// Transpose four 64-byte buffers into one byte-sliced state.
pub fn set_substates_par(data: &[[u8; 64]; 4]) -> (r: State)
    ensures
        forall|l: int| 0 <= l < 4 ==> lane(r, l) == data@[l]@,
{
    let mut st: State = [[0u8; 32]; 8];
    for i in 0..8usize
        invariant
            forall|ii: int, p: int|
                0 <= ii < i && 0 <= p < 32 ==> st@[ii]@[p] == data@[p / 8]@[(p % 8) * 8 + ii],
    {
        let mut row = [0u8; 32];
        for p in 0..32usize
            invariant
                i < 8,
                forall|pp: int| 0 <= pp < p ==> row@[pp] == data@[pp / 8]@[(pp % 8) * 8 + i],
        {
            row[p] = data[p / 8][(p % 8) * 8 + i];
        }
        st[i] = row;
    }
    proof {
        assert forall|l: int| 0 <= l < 4 implies lane(st, l) =~= data@[l]@ by {
            assert forall|k: int| 0 <= k < 64 implies lane(st, l)[k] == data@[l]@[k] by {
                let p = l * 8 + k / 8;
                lemma_stride8(l, k / 8);
                assert(st@[k % 8]@[p] == data@[p / 8]@[(p % 8) * 8 + (k % 8)]);
            }
        }
    }
    st
}

/// Transpose the byte-sliced state back into four 64-byte buffers:
/// the exact inverse of `set_substates_par`.
pub fn get_substates_par(state: &State) -> (r: [[u8; 64]; 4])
    ensures
        forall|l: int| 0 <= l < 4 ==> r@[l]@ == lane(*state, l),
{
    let mut out = [[0u8; 64]; 4];
    for l in 0..4usize
        invariant
            forall|ll: int, k: int| 0 <= ll < l && 0 <= k < 64 ==> out@[ll]@[k] == lane(*state, ll)[k],
    {
        let mut buf = [0u8; 64];
        for k in 0..64usize
            invariant
                l < 4,
                forall|kk: int| 0 <= kk < k ==> buf@[kk] == lane(*state, l as int)[kk],
        {
            buf[k] = state[k % 8][l * 8 + k / 8];
        }
        out[l] = buf;
    }
    proof {
        assert forall|l: int| 0 <= l < 4 implies out@[l]@ =~= lane(*state, l) by {
        }
    }
    out
}

/// XOR two states row-wise and position-wise; each lane of the result is
/// the XOR of the operands' lanes.
pub fn xor_state(a: &State, b: &State) -> (r: State)
    ensures
        forall|l: int| 0 <= l < 4 ==> lane(r, l) == xor_bytes(lane(*a, l), lane(*b, l)),
{
    let mut st: State = [[0u8; 32]; 8];
    for i in 0..8usize
        invariant
            forall|ii: int, p: int|
                0 <= ii < i && 0 <= p < 32 ==> st@[ii]@[p] == (a@[ii]@[p] ^ b@[ii]@[p]),
    {
        st[i] = xor_row(&a[i], &b[i]);
    }
    proof {
        assert forall|l: int| 0 <= l < 4 implies lane(st, l) =~= xor_bytes(
            lane(*a, l),
            lane(*b, l),
        ) by {
            assert forall|k: int| 0 <= k < 64 implies lane(st, l)[k] == (lane(*a, l)[k] ^ lane(
                *b,
                l,
            )[k]) by {
                assert(st@[k % 8]@[l * 8 + k / 8] == (a@[k % 8]@[l * 8 + k / 8] ^ b@[k % 8]@[l * 8
                    + k / 8]));
            }
        }
    }
    st
}

/// XOR two 32-byte rows position-wise.
fn xor_row(a: &[u8; 32], b: &[u8; 32]) -> (r: [u8; 32])
    ensures
        forall|p: int| 0 <= p < 32 ==> r@[p] == (a@[p] ^ b@[p]),
{
    let mut row = [0u8; 32];
    for p in 0..32usize
        invariant
            forall|pp: int| 0 <= pp < p ==> row@[pp] == (a@[pp] ^ b@[pp]),
    {
        row[p] = a[p] ^ b[p];
    }
    row
}

/// Double every byte of a row in GF(2^8).
fn double_row(a: &[u8; 32]) -> (r: [u8; 32])
    ensures
        forall|p: int| 0 <= p < 32 ==> r@[p] == gf_double(a@[p]),
{
    let mut row = [0u8; 32];
    for p in 0..32usize
        invariant
            forall|pp: int| 0 <= pp < p ==> row@[pp] == gf_double(a@[pp]),
    {
        let b = a[p];
        let d = b << 1u8;
        row[p] = if b >= 128 {
            d ^ 0x1b
        } else {
            d
        };
    }
    row
}

/// AddRoundConstant of permutation P: XOR `(j << 4) ^ round` into the
/// byte of row 0, column j, for every lane; rows 1..=7 untouched.
pub fn add_round_constant_p(state: &mut State, round: u8)
    requires
        round < 10,
    ensures
        forall|l: int|
            0 <= l < 4 ==> lane(*final(state), l) == arc_p_lane(lane(*old(state), l), round),
{
    let ghost s0 = *state;
    let mut row = state[0];
    for p in 0..32usize
        invariant
            forall|pp: int| 0 <= pp < p ==> row@[pp] == (s0@[0]@[pp] ^ (((pp % 8) * 16) as u8)
                ^ round),
            forall|pp: int| p <= pp < 32 ==> row@[pp] == s0@[0]@[pp],
    {
        let c = (p % 8) as u8 * 16;
        row[p] = row[p] ^ c ^ round;
    }
    state[0] = row;
    proof {
        assert forall|l: int| 0 <= l < 4 implies lane(*state, l) =~= arc_p_lane(
            lane(s0, l),
            round,
        ) by {
            assert forall|k: int| 0 <= k < 64 implies lane(*state, l)[k] == arc_p_lane(
                lane(s0, l),
                round,
            )[k] by {
                lemma_stride8(l, k / 8);
            }
        }
    }
}

/// AddRoundConstant of permutation Q: XOR `0xff ^ (j << 4) ^ round` into
/// row 7, and an all-ones mask into rows 0..=6, for every lane.
pub fn add_round_constant_q(state: &mut State, round: u8)
    requires
        round < 10,
    ensures
        forall|l: int|
            0 <= l < 4 ==> lane(*final(state), l) == arc_q_lane(lane(*old(state), l), round),
{
    let ghost s0 = *state;
    for i in 0..7usize
        invariant
            forall|ii: int, p: int|
                0 <= ii < i && 0 <= p < 32 ==> state@[ii]@[p] == (s0@[ii]@[p] ^ 0xff),
            forall|ii: int| i <= ii < 8 ==> state@[ii] == s0@[ii],
    {
        let mut row = state[i];
        for p in 0..32usize
            invariant
                i < 7,
                forall|pp: int| 0 <= pp < p ==> row@[pp] == (s0@[i as int]@[pp] ^ 0xff),
                forall|pp: int| p <= pp < 32 ==> row@[pp] == s0@[i as int]@[pp],
        {
            row[p] = row[p] ^ 0xff;
        }
        state[i] = row;
    }
    let mut last = state[7];
    for p in 0..32usize
        invariant
            forall|pp: int| 0 <= pp < p ==> last@[pp] == (s0@[7]@[pp] ^ 0xff ^ (((pp % 8)
                * 16) as u8) ^ round),
            forall|pp: int| p <= pp < 32 ==> last@[pp] == s0@[7]@[pp],
            forall|ii: int, p2: int|
                0 <= ii < 7 && 0 <= p2 < 32 ==> state@[ii]@[p2] == (s0@[ii]@[p2] ^ 0xff),
    {
        let c = (p % 8) as u8 * 16;
        last[p] = last[p] ^ 0xff ^ c ^ round;
    }
    state[7] = last;
    proof {
        assert forall|l: int| 0 <= l < 4 implies lane(*state, l) =~= arc_q_lane(
            lane(s0, l),
            round,
        ) by {
            assert forall|k: int| 0 <= k < 64 implies lane(*state, l)[k] == arc_q_lane(
                lane(s0, l),
                round,
            )[k] by {
                lemma_stride8(l, k / 8);
            }
        }
    }
}

/// SubBytes: the S-box applied to every byte of every row.
pub fn sub_bytes(state: &mut State)
    ensures
        forall|l: int| 0 <= l < 4 ==> lane(*final(state), l) == sub_lane(lane(*old(state), l)),
{
    let ghost s0 = *state;
    for i in 0..8usize
        invariant
            forall|ii: int, p: int|
                0 <= ii < i && 0 <= p < 32 ==> state@[ii]@[p] == sbox(s0@[ii]@[p]),
            forall|ii: int| i <= ii < 8 ==> state@[ii] == s0@[ii],
    {
        let mut row = state[i];
        for p in 0..32usize
            invariant
                i < 8,
                forall|pp: int| 0 <= pp < p ==> row@[pp] == sbox(s0@[i as int]@[pp]),
                forall|pp: int| p <= pp < 32 ==> row@[pp] == s0@[i as int]@[pp],
        {
            row[p] = SBOX[row[p] as usize];
        }
        state[i] = row;
    }
    proof {
        assert forall|l: int| 0 <= l < 4 implies lane(*state, l) =~= sub_lane(lane(s0, l)) by {
            assert forall|k: int| 0 <= k < 64 implies lane(*state, l)[k] == sub_lane(
                lane(s0, l),
            )[k] by {
                assert(state@[k % 8]@[l * 8 + k / 8] == sbox(s0@[k % 8]@[l * 8 + k / 8]));
            }
        }
    }
}

/// Rotate each lane's 8-byte segment of a row so that the byte at
/// column `(j + shift) % 8` moves to column `j`.
fn rotate_row_right(row: &[u8; 32], shift: usize) -> (r: [u8; 32])
    requires
        shift < 8,
    ensures
        forall|p: int|
            0 <= p < 32 ==> r@[p] == row@[(p / 8) * 8 + ((p % 8) + shift as int) % 8],
{
    let mut out = [0u8; 32];
    for p in 0..32usize
        invariant
            shift < 8,
            forall|pp: int|
                0 <= pp < p ==> out@[pp] == row@[(pp / 8) * 8 + ((pp % 8) + shift as int) % 8],
    {
        out[p] = row[(p / 8) * 8 + (p % 8 + shift) % 8];
    }
    out
}

/// ShiftBytes of permutation P: row `i` rotates by `i` columns.
pub fn shift_bytes_p(state: &mut State)
    ensures
        forall|l: int| 0 <= l < 4 ==> lane(*final(state), l) == shift_p_lane(lane(*old(state), l)),
{
    let ghost s0 = *state;
    state[1] = rotate_row_right(&state[1], 1);
    state[2] = rotate_row_right(&state[2], 2);
    state[3] = rotate_row_right(&state[3], 3);
    state[4] = rotate_row_right(&state[4], 4);
    state[5] = rotate_row_right(&state[5], 5);
    state[6] = rotate_row_right(&state[6], 6);
    state[7] = rotate_row_right(&state[7], 7);
    proof {
        lemma_shift_lanes(s0, *state, |i: int| i);
    }
}

/// ShiftBytes of permutation Q: rows rotate by the schedule 1,3,5,7,0,2,4,6.
pub fn shift_bytes_q(state: &mut State)
    ensures
        forall|l: int| 0 <= l < 4 ==> lane(*final(state), l) == shift_q_lane(lane(*old(state), l)),
{
    let ghost s0 = *state;
    state[0] = rotate_row_right(&state[0], 1);
    state[1] = rotate_row_right(&state[1], 3);
    state[2] = rotate_row_right(&state[2], 5);
    state[3] = rotate_row_right(&state[3], 7);
    state[5] = rotate_row_right(&state[5], 2);
    state[6] = rotate_row_right(&state[6], 4);
    state[7] = rotate_row_right(&state[7], 6);
    proof {
        lemma_shift_lanes(s0, *state, |i: int| shift_amount_q(i));
    }
}

/// Row-wise rotations by a per-row schedule rotate each lane's matrix
/// rows by the same schedule.
proof fn lemma_shift_lanes(s0: State, s1: State, amt: spec_fn(int) -> int)
    requires
        forall|i: int| 0 <= i < 8 ==> 0 <= #[trigger] amt(i) < 8,
        forall|i: int, p: int|
            0 <= i < 8 && 0 <= p < 32 ==> s1@[i]@[p] == s0@[i]@[(p / 8) * 8 + ((p % 8) + amt(i))
                % 8],
    ensures
        forall|l: int| 0 <= l < 4 ==> lane(s1, l) == shift_lane(lane(s0, l), amt),
{
    assert forall|l: int| 0 <= l < 4 implies lane(s1, l) =~= shift_lane(lane(s0, l), amt) by {
        assert forall|k: int| 0 <= k < 64 implies lane(s1, l)[k] == shift_lane(lane(s0, l), amt)[k]
        by {
            let i = k % 8;
            let j = k / 8;
            let x = (j + amt(i)) % 8;
            lemma_stride8(l, j);
            assert(s1@[i]@[l * 8 + j] == s0@[i]@[((l * 8 + j) / 8) * 8 + (((l * 8 + j) % 8) + amt(
                i,
            )) % 8]);
            lemma_stride8(x, i);
            assert(shift_lane(lane(s0, l), amt)[k] == lane(s0, l)[x * 8 + i]);
        }
    }
}

/// MixBytes: the diffusion layer, computed row-wise with the doubling
/// and XOR factorisation of the Groestl mixing matrix.
pub fn mix_bytes(state: &mut State)
    ensures
        forall|l: int| 0 <= l < 4 ==> lane(*final(state), l) == mix_lane(lane(*old(state), l)),
{
    let ghost s0 = *state;
    let s = *state;
    let mut x: State = [[0u8; 32]; 8];
    for i in 0..8usize
        invariant
            forall|ii: int, p: int|
                0 <= ii < i && 0 <= p < 32 ==> x@[ii]@[p] == (s@[ii]@[p] ^ s@[(ii + 1) % 8]@[p]),
    {
        x[i] = xor_row(&s[i], &s[(i + 1) % 8]);
    }
    let mut y: State = [[0u8; 32]; 8];
    for i in 0..8usize
        invariant
            forall|ii: int, p: int|
                0 <= ii < i && 0 <= p < 32 ==> y@[ii]@[p] == (x@[ii]@[p] ^ x@[(ii + 3) % 8]@[p]),
            forall|ii: int, p: int|
                0 <= ii < 8 && 0 <= p < 32 ==> x@[ii]@[p] == (s@[ii]@[p] ^ s@[(ii + 1) % 8]@[p]),
    {
        y[i] = xor_row(&x[i], &x[(i + 3) % 8]);
    }
    let mut z: State = [[0u8; 32]; 8];
    for i in 0..8usize
        invariant
            forall|ii: int, p: int|
                0 <= ii < i && 0 <= p < 32 ==> z@[ii]@[p] == (x@[ii]@[p] ^ x@[(ii + 2) % 8]@[p]
                    ^ s@[(ii + 6) % 8]@[p]),
            forall|ii: int, p: int|
                0 <= ii < 8 && 0 <= p < 32 ==> x@[ii]@[p] == (s@[ii]@[p] ^ s@[(ii + 1) % 8]@[p]),
    {
        z[i] = xor_row(&xor_row(&x[i], &x[(i + 2) % 8]), &s[(i + 6) % 8]);
    }
    for i in 0..8usize
        invariant
            forall|ii: int, p: int|
                0 <= ii < i && 0 <= p < 32 ==> state@[ii]@[p] == (gf_double(
                    (gf_double(y@[(ii + 3) % 8]@[p]) ^ z@[(ii + 7) % 8]@[p]) as u8,
                ) ^ z@[(ii + 4) % 8]@[p]),
            forall|ii: int| i <= ii < 8 ==> state@[ii] == s0@[ii],
            s == s0,
            forall|ii: int, p: int|
                0 <= ii < 8 && 0 <= p < 32 ==> x@[ii]@[p] == (s@[ii]@[p] ^ s@[(ii + 1) % 8]@[p]),
            forall|ii: int, p: int|
                0 <= ii < 8 && 0 <= p < 32 ==> y@[ii]@[p] == (x@[ii]@[p] ^ x@[(ii + 3) % 8]@[p]),
            forall|ii: int, p: int|
                0 <= ii < 8 && 0 <= p < 32 ==> z@[ii]@[p] == (x@[ii]@[p] ^ x@[(ii + 2) % 8]@[p]
                    ^ s@[(ii + 6) % 8]@[p]),
    {
        state[i] = xor_row(
            &double_row(&xor_row(&double_row(&y[(i + 3) % 8]), &z[(i + 7) % 8])),
            &z[(i + 4) % 8],
        );
    }
    proof {
        assert forall|l: int| 0 <= l < 4 implies lane(*state, l) =~= mix_lane(lane(s0, l)) by {
            assert forall|k: int| 0 <= k < 64 implies lane(*state, l)[k] == mix_lane(
                lane(s0, l),
            )[k] by {
                let i = k % 8;
                let j = k / 8;
                let p = l * 8 + j;
                let a = col(lane(s0, l), j);
                assert forall|m: int| 0 <= m < 8 implies a[m] == s0@[m]@[p] by {
                    lemma_stride8(j, m);
                }
                assert(mix_lane(lane(s0, l))[k] == mix_col(a)[i]);
            }
        }
    }
}

/// Permutation P: ten rounds of AddRoundConstant-P, SubBytes,
/// ShiftBytes-P and MixBytes, in round order.
pub fn permutation_p(state: &mut State)
    ensures
        forall|l: int| 0 <= l < 4 ==> lane(*final(state), l) == perm_p(lane(*old(state), l)),
{
    let ghost s0 = *state;
    for r in 0..10u8
        invariant
            forall|l: int|
                0 <= l < 4 ==> lane(*state, l) == perm_p_rounds(lane(s0, l), r as nat),
    {
        add_round_constant_p(state, r);
        sub_bytes(state);
        shift_bytes_p(state);
        mix_bytes(state);
        proof {
            assert forall|l: int| 0 <= l < 4 implies lane(*state, l) == perm_p_rounds(
                lane(s0, l),
                (r + 1) as nat,
            ) by {
                assert(perm_p_rounds(lane(s0, l), (r + 1) as nat) == round_p(
                    perm_p_rounds(lane(s0, l), r as nat),
                    r,
                ));
            }
        }
    }
}

/// Permutation Q: ten rounds of AddRoundConstant-Q, SubBytes,
/// ShiftBytes-Q and MixBytes, in round order.
pub fn permutation_q(state: &mut State)
    ensures
        forall|l: int| 0 <= l < 4 ==> lane(*final(state), l) == perm_q(lane(*old(state), l)),
{
    let ghost s0 = *state;
    for r in 0..10u8
        invariant
            forall|l: int|
                0 <= l < 4 ==> lane(*state, l) == perm_q_rounds(lane(s0, l), r as nat),
    {
        add_round_constant_q(state, r);
        sub_bytes(state);
        shift_bytes_q(state);
        mix_bytes(state);
        proof {
            assert forall|l: int| 0 <= l < 4 implies lane(*state, l) == perm_q_rounds(
                lane(s0, l),
                (r + 1) as nat,
            ) by {
                assert(perm_q_rounds(lane(s0, l), (r + 1) as nat) == round_q(
                    perm_q_rounds(lane(s0, l), r as nat),
                    r,
                ));
            }
        }
    }
}

/// The state whose every lane is the initial Groestl-256 chaining value.
pub fn initial_state() -> (r: State)
    ensures
        forall|l: int| 0 <= l < 4 ==> lane(r, l) == init_lane(),
{
    let mut st: State = [[0u8; 32]; 8];
    let mut row6 = [0u8; 32];
    row6[7] = 1;
    row6[15] = 1;
    row6[23] = 1;
    row6[31] = 1;
    st[6] = row6;
    proof {
        assert forall|l: int| 0 <= l < 4 implies lane(st, l) =~= init_lane() by {
            assert forall|k: int| 0 <= k < 64 implies lane(st, l)[k] == init_lane()[k] by {
                let i = k % 8;
                let j = k / 8;
                let p = l * 8 + j;
                lemma_stride8(l, j);
                if i == 6 && j == 7 {
                    assert(st@[6]@[p] == 1u8);
                    assert(k == 62);
                } else {
                    assert(lane(st, l)[k] == 0u8);
                    assert(k != 62);
                }
            }
        }
    }
    st
}

} // verus!
