//! Mathematical model of Groestl-256 on a single lane.
//!
//! A lane's 512-bit state is a sequence of 64 bytes holding an 8x8 byte
//! matrix in column-major order: the byte at matrix row `i`, column `j`
//! sits at index `j * 8 + i`, so a column is a contiguous run of 8 bytes
//! and the bytes of a message block fill the matrix column by column.
//! Every specification here is over such sequences; the executable engine
//! in `state` carries four lanes at once and is proved, lane by lane,
//! against these functions.
use vstd::prelude::*;

verus! {

/// The Groestl S-box (shared with AES): the affine transform over GF(2^8)
/// of the field inverse, tabulated for all 256 byte values.
pub const SBOX: [u8; 256] = [
    0x63, 0x7c, 0x77, 0x7b, 0xf2, 0x6b, 0x6f, 0xc5, 0x30, 0x01, 0x67, 0x2b, 0xfe, 0xd7, 0xab, 0x76,
    0xca, 0x82, 0xc9, 0x7d, 0xfa, 0x59, 0x47, 0xf0, 0xad, 0xd4, 0xa2, 0xaf, 0x9c, 0xa4, 0x72, 0xc0,
    0xb7, 0xfd, 0x93, 0x26, 0x36, 0x3f, 0xf7, 0xcc, 0x34, 0xa5, 0xe5, 0xf1, 0x71, 0xd8, 0x31, 0x15,
    0x04, 0xc7, 0x23, 0xc3, 0x18, 0x96, 0x05, 0x9a, 0x07, 0x12, 0x80, 0xe2, 0xeb, 0x27, 0xb2, 0x75,
    0x09, 0x83, 0x2c, 0x1a, 0x1b, 0x6e, 0x5a, 0xa0, 0x52, 0x3b, 0xd6, 0xb3, 0x29, 0xe3, 0x2f, 0x84,
    0x53, 0xd1, 0x00, 0xed, 0x20, 0xfc, 0xb1, 0x5b, 0x6a, 0xcb, 0xbe, 0x39, 0x4a, 0x4c, 0x58, 0xcf,
    0xd0, 0xef, 0xaa, 0xfb, 0x43, 0x4d, 0x33, 0x85, 0x45, 0xf9, 0x02, 0x7f, 0x50, 0x3c, 0x9f, 0xa8,
    0x51, 0xa3, 0x40, 0x8f, 0x92, 0x9d, 0x38, 0xf5, 0xbc, 0xb6, 0xda, 0x21, 0x10, 0xff, 0xf3, 0xd2,
    0xcd, 0x0c, 0x13, 0xec, 0x5f, 0x97, 0x44, 0x17, 0xc4, 0xa7, 0x7e, 0x3d, 0x64, 0x5d, 0x19, 0x73,
    0x60, 0x81, 0x4f, 0xdc, 0x22, 0x2a, 0x90, 0x88, 0x46, 0xee, 0xb8, 0x14, 0xde, 0x5e, 0x0b, 0xdb,
    0xe0, 0x32, 0x3a, 0x0a, 0x49, 0x06, 0x24, 0x5c, 0xc2, 0xd3, 0xac, 0x62, 0x91, 0x95, 0xe4, 0x79,
    0xe7, 0xc8, 0x37, 0x6d, 0x8d, 0xd5, 0x4e, 0xa9, 0x6c, 0x56, 0xf4, 0xea, 0x65, 0x7a, 0xae, 0x08,
    0xba, 0x78, 0x25, 0x2e, 0x1c, 0xa6, 0xb4, 0xc6, 0xe8, 0xdd, 0x74, 0x1f, 0x4b, 0xbd, 0x8b, 0x8a,
    0x70, 0x3e, 0xb5, 0x66, 0x48, 0x03, 0xf6, 0x0e, 0x61, 0x35, 0x57, 0xb9, 0x86, 0xc1, 0x1d, 0x9e,
    0xe1, 0xf8, 0x98, 0x11, 0x69, 0xd9, 0x8e, 0x94, 0x9b, 0x1e, 0x87, 0xe9, 0xce, 0x55, 0x28, 0xdf,
    0x8c, 0xa1, 0x89, 0x0d, 0xbf, 0xe6, 0x42, 0x68, 0x41, 0x99, 0x2d, 0x0f, 0xb0, 0x54, 0xbb, 0x16,
];

/// The S-box as a function on bytes.
pub open spec fn sbox(b: u8) -> u8 {
    SBOX[b as int]
}

/// Doubling in GF(2^8) modulo the Groestl polynomial x^8 + x^4 + x^3 + x + 1.
pub open spec fn gf_double(b: u8) -> u8 {
    if b >= 128 {
        (b << 1) ^ 0x1b
    } else {
        b << 1
    }
}

/// The byte at matrix row `i`, column `j` of a 64-byte lane state.
pub open spec fn mat(s: Seq<u8>, i: int, j: int) -> u8 {
    s[j * 8 + i]
}

/// Column `j` of a lane state as its own 8-byte sequence.
pub open spec fn col(s: Seq<u8>, j: int) -> Seq<u8> {
    s.subrange(j * 8, j * 8 + 8)
}

/// AddRoundConstant for permutation P: round constant `(j << 4) ^ r` XORed
/// into row 0, column j; all other rows untouched.
pub open spec fn arc_p_lane(s: Seq<u8>, r: u8) -> Seq<u8> {
    Seq::new(64, |k: int|
        if k % 8 == 0 {
            s[k] ^ (((k / 8) * 16) as u8) ^ r
        } else {
            s[k]
        })
}

/// AddRoundConstant for permutation Q: `0xff ^ (j << 4) ^ r` XORed into
/// row 7, column j; an all-ones mask XORed into rows 0..=6.
pub open spec fn arc_q_lane(s: Seq<u8>, r: u8) -> Seq<u8> {
    Seq::new(64, |k: int|
        if k % 8 == 7 {
            s[k] ^ 0xff ^ (((k / 8) * 16) as u8) ^ r
        } else {
            s[k] ^ 0xff
        })
}

/// SubBytes: the S-box applied to every byte of the state.
pub open spec fn sub_lane(s: Seq<u8>) -> Seq<u8> {
    Seq::new(64, |k: int| sbox(s[k]))
}

/// ShiftBytes row rotations for P: row `i` rotates by `i` positions.
pub open spec fn shift_amount_p(i: int) -> int {
    i
}

/// ShiftBytes row rotations for Q: the schedule 1,3,5,7,0,2,4,6 for rows 0..=7.
pub open spec fn shift_amount_q(i: int) -> int {
    if i == 4 {
        0
    } else if i < 4 {
        2 * i + 1
    } else {
        2 * (i - 4)
    }
}

/// ShiftBytes: row `i` of the matrix rotates so that the byte at column
/// `(j + amt(i)) % 8` moves to column `j`.
pub open spec fn shift_lane(s: Seq<u8>, amt: spec_fn(int) -> int) -> Seq<u8> {
    Seq::new(64, |k: int| mat(s, k % 8, (k / 8 + amt(k % 8)) % 8))
}

pub open spec fn shift_p_lane(s: Seq<u8>) -> Seq<u8> {
    shift_lane(s, |i: int| shift_amount_p(i))
}

pub open spec fn shift_q_lane(s: Seq<u8>) -> Seq<u8> {
    shift_lane(s, |i: int| shift_amount_q(i))
}

/// MixBytes on one 8-byte column: the Groestl diffusion matrix in its
/// doubling-and-XOR factorisation. Each output byte is a GF(2^8)-linear
/// combination of all 8 input bytes of the column.
pub open spec fn mix_col(a: Seq<u8>) -> Seq<u8> {
    let x = Seq::new(8, |i: int| a[i] ^ a[(i + 1) % 8]);
    let y = Seq::new(8, |i: int| x[i] ^ x[(i + 3) % 8]);
    let z = Seq::new(8, |i: int| x[i] ^ x[(i + 2) % 8] ^ a[(i + 6) % 8]);
    Seq::new(8, |i: int| gf_double(gf_double(y[(i + 3) % 8]) ^ z[(i + 7) % 8]) ^ z[(i + 4) % 8])
}

/// MixBytes on a whole lane: every column mixed independently.
pub open spec fn mix_lane(s: Seq<u8>) -> Seq<u8> {
    Seq::new(64, |k: int| mix_col(col(s, k / 8))[k % 8])
}

/// Multiplication by 3 in GF(2^8), built from doubling.
pub open spec fn gf_mul3(b: u8) -> u8 {
    gf_double(b) ^ b
}

/// Multiplication by 4 in GF(2^8), built from doubling.
pub open spec fn gf_mul4(b: u8) -> u8 {
    gf_double(gf_double(b))
}

/// Multiplication by 5 in GF(2^8), built from doubling.
pub open spec fn gf_mul5(b: u8) -> u8 {
    gf_double(gf_double(b)) ^ b
}

/// Multiplication by 7 in GF(2^8), built from doubling.
pub open spec fn gf_mul7(b: u8) -> u8 {
    gf_double(gf_double(b)) ^ gf_double(b) ^ b
}

/// Row `i` of the canonical Groestl mixing matrix, the circulant
/// circ(02, 02, 03, 04, 05, 03, 05, 07), applied to one 8-byte column.
pub open spec fn mix_col_canonical(a: Seq<u8>, i: int) -> u8 {
    gf_double(a[i]) ^ gf_double(a[(i + 1) % 8]) ^ gf_mul3(a[(i + 2) % 8]) ^ gf_mul4(
        a[(i + 3) % 8],
    ) ^ gf_mul5(a[(i + 4) % 8]) ^ gf_mul3(a[(i + 5) % 8]) ^ gf_mul5(a[(i + 6) % 8]) ^ gf_mul7(
        a[(i + 7) % 8],
    )
}

/// Doubling in GF(2^8) phrased without a branch, for bit-level reasoning.
proof fn lemma_gf_double_bits(t: u8)
    ensures
        gf_double(t) == ((t << 1) ^ ((0x1b * (t >> 7)) as u8)),
{
    if t >= 128 {
        assert(((t << 1) ^ 0x1b) == ((t << 1) ^ ((0x1b * (t >> 7)) as u8))) by (bit_vector)
            requires t >= 128u8;
    } else {
        assert((t << 1) == ((t << 1) ^ ((0x1b * (t >> 7)) as u8))) by (bit_vector)
            requires t < 128u8;
    }
}

/// An offset into a rotated column wraps around after eight positions.
proof fn lemma_mod_shift8(i: int, c: int, d: int)
    requires
        0 <= i,
        0 <= c,
        0 <= d < 8,
    ensures
        ((i + c) % 8 + d) % 8 == (i + c + d) % 8,
{
    vstd::arithmetic::div_mod::lemma_add_mod_noop(i + c, d, 8);
    vstd::arithmetic::div_mod::lemma_small_mod(d as nat, 8);
}

/// Rotations of a column are periodic with period eight.
proof fn lemma_mod_period8(v: int)
    requires
        0 <= v,
    ensures
        (v + 8) % 8 == v % 8,
{
    assert((v + 8) % 8 == v % 8) by (nonlinear_arith)
        requires 0 <= v;
}

/// MixBytes law: the doubling-and-XOR factorisation used by the
/// diffusion layer computes, row by row on every column, the canonical
/// Groestl mixing matrix circ(02, 02, 03, 04, 05, 03, 05, 07).
pub proof fn lemma_mix_col_canonical(a: Seq<u8>, i: int)
    requires
        a.len() == 8,
        0 <= i < 8,
    ensures
        mix_col(a)[i] == mix_col_canonical(a, i),
{
    let b0 = a[i];
    let b1 = a[(i + 1) % 8];
    let b2 = a[(i + 2) % 8];
    let b3 = a[(i + 3) % 8];
    let b4 = a[(i + 4) % 8];
    let b5 = a[(i + 5) % 8];
    let b6 = a[(i + 6) % 8];
    let b7 = a[(i + 7) % 8];
    lemma_mod_shift8(i, 3, 1);
    lemma_mod_shift8(i, 6, 1);
    lemma_mod_shift8(i, 7, 1);
    lemma_mod_shift8(i, 1, 1);
    lemma_mod_shift8(i, 4, 1);
    lemma_mod_shift8(i, 3, 3);
    lemma_mod_shift8(i, 7, 2);
    lemma_mod_shift8(i, 7, 6);
    lemma_mod_shift8(i, 4, 2);
    lemma_mod_shift8(i, 4, 6);
    lemma_mod_period8(i);
    lemma_mod_period8(i + 1);
    lemma_mod_period8(i + 2);
    lemma_mod_period8(i + 5);
    vstd::arithmetic::div_mod::lemma_small_mod(i as nat, 8);
    let u = (b3 ^ b4) ^ (b6 ^ b7);
    let v = (b7 ^ b0) ^ (b1 ^ b2) ^ b5;
    let w = (b4 ^ b5) ^ (b6 ^ b7) ^ b2;
    assert(mix_col(a)[i] == gf_double(gf_double(u) ^ v) ^ w);
    let gu = gf_double(u);
    let m = gu ^ v;
    let gm = gf_double(m);
    let g0 = gf_double(b0);
    let g1 = gf_double(b1);
    let g2 = gf_double(b2);
    let g3 = gf_double(b3);
    let g33 = gf_double(g3);
    let g4 = gf_double(b4);
    let g44 = gf_double(g4);
    let g5 = gf_double(b5);
    let g6 = gf_double(b6);
    let g66 = gf_double(g6);
    let g7 = gf_double(b7);
    let g77 = gf_double(g7);
    lemma_gf_double_bits(u);
    lemma_gf_double_bits(m);
    lemma_gf_double_bits(b0);
    lemma_gf_double_bits(b1);
    lemma_gf_double_bits(b2);
    lemma_gf_double_bits(b3);
    lemma_gf_double_bits(g3);
    lemma_gf_double_bits(b4);
    lemma_gf_double_bits(g4);
    lemma_gf_double_bits(b5);
    lemma_gf_double_bits(b6);
    lemma_gf_double_bits(g6);
    lemma_gf_double_bits(b7);
    lemma_gf_double_bits(g7);
    assert(gm ^ w == g0 ^ g1 ^ (g2 ^ b2) ^ g33 ^ (g44 ^ b4) ^ (g5 ^ b5) ^ (g66 ^ b6) ^ (g77 ^ g7
        ^ b7)) by (bit_vector)
        requires
            u == (b3 ^ b4) ^ (b6 ^ b7),
            v == (b7 ^ b0) ^ (b1 ^ b2) ^ b5,
            w == (b4 ^ b5) ^ (b6 ^ b7) ^ b2,
            gu == (u << 1) ^ ((0x1b * (u >> 7)) as u8),
            m == gu ^ v,
            gm == (m << 1) ^ ((0x1b * (m >> 7)) as u8),
            g0 == (b0 << 1) ^ ((0x1b * (b0 >> 7)) as u8),
            g1 == (b1 << 1) ^ ((0x1b * (b1 >> 7)) as u8),
            g2 == (b2 << 1) ^ ((0x1b * (b2 >> 7)) as u8),
            g3 == (b3 << 1) ^ ((0x1b * (b3 >> 7)) as u8),
            g33 == (g3 << 1) ^ ((0x1b * (g3 >> 7)) as u8),
            g4 == (b4 << 1) ^ ((0x1b * (b4 >> 7)) as u8),
            g44 == (g4 << 1) ^ ((0x1b * (g4 >> 7)) as u8),
            g5 == (b5 << 1) ^ ((0x1b * (b5 >> 7)) as u8),
            g6 == (b6 << 1) ^ ((0x1b * (b6 >> 7)) as u8),
            g66 == (g6 << 1) ^ ((0x1b * (g6 >> 7)) as u8),
            g7 == (b7 << 1) ^ ((0x1b * (b7 >> 7)) as u8),
            g77 == (g7 << 1) ^ ((0x1b * (g7 >> 7)) as u8),
    ;
}

/// MixBytes law on a whole lane: byte `(i, j)` of the mixed state is row
/// `i` of the canonical mixing matrix applied to column `j`.
pub proof fn lemma_mix_lane_canonical(s: Seq<u8>, k: int)
    requires
        s.len() == 64,
        0 <= k < 64,
    ensures
        mix_lane(s)[k] == mix_col_canonical(col(s, k / 8), k % 8),
{
    lemma_mix_col_canonical(col(s, k / 8), k % 8);
}

/// One round of permutation P.
pub open spec fn round_p(s: Seq<u8>, r: u8) -> Seq<u8> {
    mix_lane(shift_p_lane(sub_lane(arc_p_lane(s, r))))
}

/// One round of permutation Q.
pub open spec fn round_q(s: Seq<u8>, r: u8) -> Seq<u8> {
    mix_lane(shift_q_lane(sub_lane(arc_q_lane(s, r))))
}

/// The first `n` rounds of P, applied in round order.
pub open spec fn perm_p_rounds(s: Seq<u8>, n: nat) -> Seq<u8>
    decreases n,
{
    if n == 0 {
        s
    } else {
        round_p(perm_p_rounds(s, (n - 1) as nat), (n - 1) as u8)
    }
}

/// The first `n` rounds of Q, applied in round order.
pub open spec fn perm_q_rounds(s: Seq<u8>, n: nat) -> Seq<u8>
    decreases n,
{
    if n == 0 {
        s
    } else {
        round_q(perm_q_rounds(s, (n - 1) as nat), (n - 1) as u8)
    }
}

/// Permutation P: 10 rounds.
pub open spec fn perm_p(s: Seq<u8>) -> Seq<u8> {
    perm_p_rounds(s, 10)
}

/// Permutation Q: 10 rounds.
pub open spec fn perm_q(s: Seq<u8>) -> Seq<u8> {
    perm_q_rounds(s, 10)
}

/// Pointwise XOR of two equally long byte sequences.
pub open spec fn xor_bytes(a: Seq<u8>, b: Seq<u8>) -> Seq<u8> {
    Seq::new(a.len(), |k: int| a[k] ^ b[k])
}

/// The Groestl compression function: h' = h ^ P(h ^ m) ^ Q(m).
pub open spec fn compress(h: Seq<u8>, m: Seq<u8>) -> Seq<u8> {
    xor_bytes(xor_bytes(h, perm_p(xor_bytes(h, m))), perm_q(m))
}

/// The initial chaining value: the 512-bit big-endian encoding of the
/// output width 256, that is 0x01 0x00 in the last two bytes.
pub open spec fn init_lane() -> Seq<u8> {
    Seq::new(64, |k: int| if k == 62 { 1u8 } else { 0u8 })
}

/// The chaining value after absorbing a whole number of 64-byte blocks,
/// in input order.
pub open spec fn chain(m: Seq<u8>) -> Seq<u8>
    recommends
        m.len() % 64 == 0,
    decreases m.len(),
{
    if m.len() < 64 {
        init_lane()
    } else {
        compress(chain(m.take(m.len() - 64)), m.skip(m.len() - 64))
    }
}

/// The 8-byte big-endian encoding of a 64-bit integer.
pub open spec fn be64(x: u64) -> Seq<u8> {
    Seq::new(8, |i: int| (x >> (56 - 8 * i)) as u8)
}

/// How many 64-byte blocks an n-byte message occupies once padded: one
/// extra block normally, two when fewer than 9 bytes of the last block
/// are free for the 0x80 marker and the length field.
pub open spec fn pad_blocks(n: nat) -> nat {
    if n % 64 < 56 {
        n / 64 + 1
    } else {
        n / 64 + 2
    }
}

/// Groestl padding: a 0x80 marker, a zero fill, and the big-endian count
/// of all blocks of the padded message in the final 8 bytes.
pub open spec fn padded(m: Seq<u8>) -> Seq<u8> {
    m + seq![0x80u8] + Seq::new((pad_blocks(m.len()) * 64 - m.len() - 9) as nat, |i: int| 0u8)
        + be64(pad_blocks(m.len()) as u64)
}

/// Groestl-256 of an arbitrary byte sequence: absorb the padded message,
/// apply the output transformation P(h) ^ h, and keep the last 32 bytes.
pub open spec fn groestl256(m: Seq<u8>) -> Seq<u8> {
    let h = chain(padded(m));
    xor_bytes(perm_p(h), h).skip(32)
}

/// The block that closes a stream whose last (possibly empty) partial
/// block holds `m.len() % 64` message bytes: the unfinished bytes, the
/// 0x80 marker, a zero fill, and — when the marker and the length field
/// both fit — the big-endian block count in the last 8 bytes.
pub open spec fn first_pad_block(m: Seq<u8>, count: u64) -> Seq<u8> {
    let n = m.len() % 64;
    let start = m.len() - n;
    Seq::new(64, |t: int|
        if t < n {
            m[start + t]
        } else if t == n {
            0x80u8
        } else if t < 56 {
            0u8
        } else if n < 56 {
            be64(count)[t - 56]
        } else {
            0u8
        })
}

/// The extra all-zero block that carries the block count when the last
/// partial block has no room for it.
pub open spec fn second_pad_block(count: u64) -> Seq<u8> {
    Seq::new(64, |t: int| if t < 56 { 0u8 } else { be64(count)[t - 56] })
}

/// Division and remainder of a byte count by the 64-byte block size.
pub proof fn lemma_stride64(a: int, b: int)
    requires
        0 <= b < 64,
        0 <= a,
    ensures
        (a * 64 + b) / 64 == a,
        (a * 64 + b) % 64 == b,
{
    assert((a * 64 + b) / 64 == a && (a * 64 + b) % 64 == b) by (nonlinear_arith)
        requires 0 <= b < 64;
}

/// When the last partial block leaves room for marker and length field,
/// padding appends exactly one closing block.
pub proof fn lemma_padded_one_block(m: Seq<u8>)
    requires
        m.len() % 64 < 56,
        m.len() < 0x1000_0000_0000_0000,
    ensures
        padded(m) == m.take(m.len() - m.len() % 64) + first_pad_block(
            m,
            (m.len() / 64 + 1) as u64,
        ),
{
    let n = m.len() % 64;
    let start = (m.len() - n) as int;
    let count = (m.len() / 64 + 1) as u64;
    let blk = first_pad_block(m, count);
    assert(pad_blocks(m.len()) == m.len() / 64 + 1);
    assert(padded(m).len() == m.len() + 1 + (55 - n) + 8);
    assert(padded(m) =~= m.take(start) + blk) by {
        assert forall|idx: int| 0 <= idx < padded(m).len() implies padded(m)[idx] == (m.take(start)
            + blk)[idx] by {
            if idx >= start {
                let t = idx - start;
                assert((m.take(start) + blk)[idx] == blk[t]);
                if t < n {
                    assert(padded(m)[idx] == m[idx]);
                } else if t == n {
                    assert(padded(m)[idx] == 0x80u8);
                } else if t < 56 {
                    assert(padded(m)[idx] == 0u8);
                } else {
                    assert(padded(m)[idx] == be64(pad_blocks(m.len()) as u64)[idx - (m.len() + 1 + (
                    55 - n))]);
                    assert(idx - (m.len() + 1 + (55 - n)) == t - 56);
                }
            }
        }
    }
}

/// When the last partial block is too full, padding appends two blocks:
/// the marker block and a zero block carrying the length field.
pub proof fn lemma_padded_two_blocks(m: Seq<u8>)
    requires
        m.len() % 64 >= 56,
        m.len() < 0x1000_0000_0000_0000,
    ensures
        padded(m) == m.take(m.len() - m.len() % 64) + first_pad_block(
            m,
            (m.len() / 64 + 2) as u64,
        ) + second_pad_block((m.len() / 64 + 2) as u64),
{
    let n = m.len() % 64;
    let start = (m.len() - n) as int;
    let count = (m.len() / 64 + 2) as u64;
    let blk1 = first_pad_block(m, count);
    let blk2 = second_pad_block(count);
    assert(pad_blocks(m.len()) == m.len() / 64 + 2);
    assert(padded(m).len() == m.len() + 1 + (119 - n) + 8);
    assert(padded(m) =~= m.take(start) + blk1 + blk2) by {
        assert forall|idx: int| 0 <= idx < padded(m).len() implies padded(m)[idx] == (m.take(start)
            + blk1 + blk2)[idx] by {
            if start <= idx < start + 64 {
                let t = idx - start;
                assert((m.take(start) + blk1 + blk2)[idx] == blk1[t]);
                if t < n {
                    assert(padded(m)[idx] == m[idx]);
                } else if t == n {
                    assert(padded(m)[idx] == 0x80u8);
                } else {
                    assert(padded(m)[idx] == 0u8);
                }
            } else if idx >= start + 64 {
                let t = idx - (start + 64);
                assert((m.take(start) + blk1 + blk2)[idx] == blk2[t]);
                if t < 56 {
                    assert(padded(m)[idx] == 0u8);
                } else {
                    assert(padded(m)[idx] == be64(pad_blocks(m.len()) as u64)[idx - (m.len() + 1 + (
                    119 - n))]);
                    assert(idx - (m.len() + 1 + (119 - n)) == t - 56);
                }
            }
        }
    }
}

/// Every lane transformation and hence the chaining value is 64 bytes wide.
pub proof fn lemma_chain_len(m: Seq<u8>)
    ensures
        chain(m).len() == 64,
    decreases m.len(),
{
    if m.len() >= 64 {
        lemma_chain_len(m.take(m.len() - 64));
    }
}

/// The padded message ends exactly on a block boundary.
pub proof fn lemma_padded_len(m: Seq<u8>)
    requires
        m.len() < 0x1000_0000_0000_0000,
    ensures
        padded(m).len() == pad_blocks(m.len()) * 64,
        padded(m).len() % 64 == 0,
        padded(m).len() >= 64,
{
    let n = m.len();
    let b = pad_blocks(n);
    assert(n % 64 < 64 && n == 64 * (n / 64) + n % 64) by (nonlinear_arith);
    assert(padded(m).len() == b * 64);
    assert((b * 64) % 64 == 0) by (nonlinear_arith);
}

/// Absorbing one more full block extends the chaining fold by one step.
pub proof fn lemma_chain_snoc(m: Seq<u8>, blk: Seq<u8>)
    requires
        blk.len() == 64,
    ensures
        chain(m + blk) == compress(chain(m), blk),
{
    let w = m + blk;
    assert(w.take(w.len() - 64) =~= m);
    assert(w.skip(w.len() - 64) =~= blk);
}

} // verus!
