use digest::Digest;
use groestl_multi::state::{get_substates_par, set_substates_par};
use groestl_multi::Groestl256Multi;

/// The standard Groestl-256 digest of the empty byte string.
const EMPTY_STRING_DIGEST: [u8; 32] = [
    0x1a, 0x52, 0xd1, 0x1d, 0x55, 0x00, 0x39, 0xbe, 0x16, 0x10, 0x7f, 0x9c, 0x58, 0xdb, 0x9e,
    0xbc, 0xc4, 0x17, 0xf1, 0x6f, 0x73, 0x6a, 0xdb, 0x25, 0x02, 0x56, 0x71, 0x19, 0xf0, 0x08,
    0x34, 0x67,
];

fn reference_digest(data: &[u8]) -> [u8; 32] {
    let d = groestl::Groestl256::digest(data);
    let mut out = [0u8; 32];
    out.copy_from_slice(&d);
    out
}

fn lane_bytes(lane: usize, len: usize) -> Vec<u8> {
    (0..len).map(|i| (i as u8).wrapping_mul(31).wrapping_add(lane as u8 * 97)).collect()
}

fn multi_digest(data: [&[u8]; 4]) -> [[u8; 32]; 4] {
    let mut out = [[0u8; 32]; 4];
    Groestl256Multi::digest(data, &mut out);
    out
}

#[test]
fn transposition_round_trip() {
    let mut lanes = [[0u8; 64]; 4];
    for l in 0..4 {
        for k in 0..64 {
            lanes[l][k] = (l * 64 + k) as u8 ^ 0x5a;
        }
    }
    let state = set_substates_par(&lanes);
    let back = get_substates_par(&state);
    assert_eq!(back, lanes);
}

#[test]
fn transposition_round_trip_all_equal_bytes() {
    for v in [0u8, 1, 0x80, 0xff] {
        let lanes = [[v; 64]; 4];
        let back = get_substates_par(&set_substates_par(&lanes));
        assert_eq!(back, lanes);
    }
}

#[test]
fn empty_string_standard_vector() {
    let out = multi_digest([&[], &[], &[], &[]]);
    for l in 0..4 {
        assert_eq!(out[l], EMPTY_STRING_DIGEST);
    }
}

#[test]
fn single_shot_matches_reference() {
    for len in [0usize, 1, 3, 31, 55, 56, 57, 63, 64, 65, 100, 119, 120, 128, 200, 1000] {
        let lanes: Vec<Vec<u8>> = (0..4).map(|l| lane_bytes(l, len)).collect();
        let out = multi_digest([&lanes[0], &lanes[1], &lanes[2], &lanes[3]]);
        for l in 0..4 {
            assert_eq!(out[l], reference_digest(&lanes[l]), "lane {l} length {len}");
        }
    }
}

#[test]
fn single_shot_known_message() {
    // The documented Groestl-256 digest of b"my message".
    let expected: [u8; 32] = [
        0xdc, 0x02, 0x83, 0xca, 0x48, 0x1e, 0xfa, 0x76, 0xb7, 0xc1, 0x9d, 0xd5, 0xa0, 0xb7,
        0x63, 0xdf, 0xf0, 0xe8, 0x67, 0x45, 0x1b, 0xd9, 0x48, 0x8a, 0x9c, 0x59, 0xf6, 0xc8,
        0xb8, 0x04, 0x7a, 0x86,
    ];
    let msg = b"my message";
    let out = multi_digest([msg, msg, msg, msg]);
    for l in 0..4 {
        assert_eq!(out[l], expected);
    }
}

#[test]
fn split_update_equivalence() {
    for len in [1usize, 10, 63, 64, 65, 130, 200] {
        let lanes: Vec<Vec<u8>> = (0..4).map(|l| lane_bytes(l, len)).collect();
        let single = multi_digest([&lanes[0], &lanes[1], &lanes[2], &lanes[3]]);
        for k in [0usize, 1, len / 2, len.saturating_sub(1), len] {
            let mut hasher = Groestl256Multi::new();
            hasher.update([&lanes[0][..k], &lanes[1][..k], &lanes[2][..k], &lanes[3][..k]]);
            hasher.update([&lanes[0][k..], &lanes[1][k..], &lanes[2][k..], &lanes[3][k..]]);
            let mut out = [[0u8; 32]; 4];
            hasher.finalize_into(&mut out);
            assert_eq!(out, single, "length {len} split {k}");
        }
    }
}

#[test]
fn many_splits_idempotence() {
    let len = 500usize;
    let lanes: Vec<Vec<u8>> = (0..4).map(|l| lane_bytes(l, len)).collect();
    let single = multi_digest([&lanes[0], &lanes[1], &lanes[2], &lanes[3]]);
    let cuts = [0usize, 1, 5, 64, 64, 100, 128, 333, 499, 500];
    let mut hasher = Groestl256Multi::new();
    let mut start = 0usize;
    for &cut in cuts.iter() {
        let end = cut.max(start);
        hasher.update([
            &lanes[0][start..end],
            &lanes[1][start..end],
            &lanes[2][start..end],
            &lanes[3][start..end],
        ]);
        start = end;
    }
    hasher.update([&lanes[0][start..], &lanes[1][start..], &lanes[2][start..], &lanes[3][start..]]);
    let mut out = [[0u8; 32]; 4];
    hasher.finalize_into(&mut out);
    assert_eq!(out, single);
}

#[test]
fn all_empty_update_is_a_no_op() {
    let lanes: Vec<Vec<u8>> = (0..4).map(|l| lane_bytes(l, 77)).collect();
    let single = multi_digest([&lanes[0], &lanes[1], &lanes[2], &lanes[3]]);
    let mut hasher = Groestl256Multi::new();
    hasher.update([&[], &[], &[], &[]]);
    hasher.update([&lanes[0][..40], &lanes[1][..40], &lanes[2][..40], &lanes[3][..40]]);
    hasher.update([&[], &[], &[], &[]]);
    hasher.update([&lanes[0][40..], &lanes[1][40..], &lanes[2][40..], &lanes[3][40..]]);
    let mut out = [[0u8; 32]; 4];
    hasher.finalize_into(&mut out);
    assert_eq!(out, single);
}

#[test]
fn reset_reuse_matches_fresh() {
    let first: Vec<Vec<u8>> = (0..4).map(|l| lane_bytes(l, 150)).collect();
    let second: Vec<Vec<u8>> = (0..4).map(|l| lane_bytes(l + 7, 90)).collect();

    let mut hasher = Groestl256Multi::new();
    hasher.update([&first[0], &first[1], &first[2], &first[3]]);
    let mut out_first = [[0u8; 32]; 4];
    hasher.finalize_into_reset(&mut out_first);

    hasher.update([&second[0], &second[1], &second[2], &second[3]]);
    let mut out_second = [[0u8; 32]; 4];
    hasher.finalize_into_reset(&mut out_second);

    assert_eq!(out_first, multi_digest([&first[0], &first[1], &first[2], &first[3]]));
    assert_eq!(out_second, multi_digest([&second[0], &second[1], &second[2], &second[3]]));
    for l in 0..4 {
        assert_eq!(out_second[l], reference_digest(&second[l]));
    }
}

#[test]
fn explicit_reset_clears_everything() {
    let data = lane_bytes(3, 70);
    let mut hasher = Groestl256Multi::new();
    hasher.update([&data, &data, &data, &data]);
    hasher.reset();
    let mut out = [[0u8; 32]; 4];
    hasher.finalize_into(&mut out);
    for l in 0..4 {
        assert_eq!(out[l], EMPTY_STRING_DIGEST);
    }
}

#[test]
fn empty_lanes_leave_data_lanes_correct() {
    for len in [5usize, 64, 150] {
        let a = lane_bytes(0, len);
        let c = lane_bytes(2, len);
        let out = multi_digest([&a, &[], &c, &[]]);
        assert_eq!(out[0], reference_digest(&a));
        assert_eq!(out[2], reference_digest(&c));
        // A lane that never receives data absorbs zeroes of the shared
        // length, in lockstep with the active lanes.
        let zeroes = vec![0u8; len];
        assert_eq!(out[1], reference_digest(&zeroes));
        assert_eq!(out[3], reference_digest(&zeroes));
    }
}

#[test]
fn empty_lane_consistent_across_stream() {
    let len = 100usize;
    let a = lane_bytes(1, len);
    let mut hasher = Groestl256Multi::new();
    hasher.update([&[], &a[..30], &a[..30], &a[..30]]);
    hasher.update([&[], &a[30..], &a[30..], &a[30..]]);
    let mut out = [[0u8; 32]; 4];
    hasher.finalize_into(&mut out);
    let zeroes = vec![0u8; len];
    assert_eq!(out[0], reference_digest(&zeroes));
    for l in 1..4 {
        assert_eq!(out[l], reference_digest(&a));
    }
}

#[test]
fn lanes_carry_independent_streams() {
    let lanes: Vec<Vec<u8>> = (0..4).map(|l| lane_bytes(l * 3 + 1, 321)).collect();
    let out = multi_digest([&lanes[0], &lanes[1], &lanes[2], &lanes[3]]);
    for l in 0..4 {
        for m in 0..4 {
            if l != m {
                assert_ne!(out[l], out[m]);
            }
        }
        assert_eq!(out[l], reference_digest(&lanes[l]));
    }
}
