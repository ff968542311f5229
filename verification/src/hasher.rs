//! The streaming four-lane Groestl-256 hasher.
//!
//! The instance buffers partial input, absorbs a four-lane super-block
//! through the compression function whenever 64 bytes per lane have
//! accumulated, and at finalization pads, applies the output
//! transformation and extracts one 32-byte digest per lane.
//!
//! Its abstract value is the sequence of bytes absorbed so far in each
//! lane, kept in a ghost field; every operation is specified against it,
//! and finalization yields exactly `groestl256` of each lane's stream.
//! All active lanes consume input in lockstep, so the four streams always
//! share one length; a lane passed as empty while others carry data
//! stands for a zero-filled lane of the call's length.
use vstd::prelude::*;

use crate::model::{
    chain, compress, first_pad_block, groestl256, init_lane, lemma_chain_len, lemma_chain_snoc,
    lemma_padded_one_block, lemma_padded_two_blocks, lemma_stride64, padded,
    second_pad_block, be64, xor_bytes, perm_p,
};
use crate::state::{
    get_substates_par, initial_state, lane, permutation_p, permutation_q, set_substates_par,
    xor_state, State,
};

verus! {

/// The hasher refuses to absorb more than this many super-blocks, so the
/// block count of the padded stream always fits the 64-bit length field.
pub const MAX_BLOCKS: u64 = 0x000F_FFFF_FFFF_FFFF;

/// The longest byte stream a lane may absorb.
pub open spec fn max_message_len() -> int {
    MAX_BLOCKS as int * 64
}

/// The abstract value of a fresh hasher: four empty streams.
pub open spec fn empty_messages() -> Seq<Seq<u8>> {
    Seq::new(4, |l: int| Seq::<u8>::empty())
}

/// The shared length of one `update` call: the length of the first
/// non-empty lane.
pub open spec fn call_len(data: [&[u8]; 4]) -> int {
    if data[0]@.len() > 0 {
        data[0]@.len() as int
    } else if data[1]@.len() > 0 {
        data[1]@.len() as int
    } else if data[2]@.len() > 0 {
        data[2]@.len() as int
    } else {
        data[3]@.len() as int
    }
}

/// The caller contract of `update`: every non-empty lane carries the same
/// number of bytes.
pub open spec fn lanes_agree(data: [&[u8]; 4]) -> bool {
    forall|l: int|
        0 <= l < 4 ==> (#[trigger] data[l]@.len() == 0 || data[l]@.len() == call_len(data))
}

/// What one call feeds a lane: its own bytes, or — for a lane passed as
/// empty while others carry data — zeroes of the call's length.
pub open spec fn eff_lane(data: [&[u8]; 4], l: int) -> Seq<u8> {
    if data[l]@.len() == 0 {
        Seq::new(call_len(data) as nat, |i: int| 0u8)
    } else {
        data[l]@
    }
}

/// A four-lane Groestl-256 hasher: the running chaining state, the
/// unfinished super-block, the shared fill level of the four lane
/// buffers, and the number of super-blocks already compressed.
#[derive(Clone, Copy)]
pub struct Groestl256Multi {
    state: State,
    unfinished_block: [[u8; 64]; 4],
    num_unfinished_bytes: usize,
    num_blocks_consumed: u64,
    msgs: Ghost<Seq<Seq<u8>>>,
}

impl Groestl256Multi {
    /// The bytes absorbed so far, one stream per lane.
    pub closed spec fn messages(self) -> Seq<Seq<u8>> {
        self.msgs@
    }

    /// The instance invariant: the four streams share one length, the
    /// buffer holds exactly the bytes past the last compressed block,
    /// and each lane of the chaining state is the fold of the
    /// compression function over that lane's compressed blocks.
    pub closed spec fn wf(self) -> bool {
        &&& self.msgs@.len() == 4
        &&& self.num_unfinished_bytes < 64
        &&& self.num_blocks_consumed <= MAX_BLOCKS
        &&& forall|l: int|
            0 <= l < 4 ==> (#[trigger] self.msgs@[l]).len() == self.num_blocks_consumed * 64
                + self.num_unfinished_bytes
        &&& forall|l: int|
            0 <= l < 4 ==> lane(self.state, l) == chain(
                (#[trigger] self.msgs@[l]).take(self.num_blocks_consumed as int * 64),
            )
        &&& forall|l: int|
            0 <= l < 4 ==> (#[trigger] self.unfinished_block@[l]@).take(
                self.num_unfinished_bytes as int,
            ) == self.msgs@[l].skip(self.num_blocks_consumed as int * 64)
    }

    /// A fresh hasher: initial chaining value, empty buffer, no input.
    pub fn new() -> (r: Self)
        ensures
            r.wf(),
            r.messages() == empty_messages(),
    {
        let st = initial_state();
        let r = Groestl256Multi {
            state: st,
            unfinished_block: [[0u8; 64]; 4],
            num_unfinished_bytes: 0,
            num_blocks_consumed: 0,
            msgs: Ghost(empty_messages()),
        };
        proof {
            assert forall|l: int| 0 <= l < 4 implies lane(r.state, l) == chain(
                r.msgs@[l].take(0),
            ) by {
                assert(r.msgs@[l].take(0) =~= Seq::<u8>::empty());
                assert(chain(Seq::<u8>::empty()) == init_lane());
            }
            assert forall|l: int| 0 <= l < 4 implies (r.unfinished_block@[l]@).take(0)
                == r.msgs@[l].skip(0) by {
                assert((r.unfinished_block@[l]@).take(0) =~= r.msgs@[l].skip(0));
            }
        }
        r
    }

    /// Absorb one 64-byte block per lane into the chaining state:
    /// `h' = h ^ P(h ^ m) ^ Q(m)`, lane-wise and position-wise.
    fn consume_single_block_parallel(&mut self, data: &[[u8; 64]; 4])
        requires
            old(self).num_blocks_consumed < u64::MAX,
        ensures
            forall|l: int|
                0 <= l < 4 ==> lane(final(self).state, l) == compress(
                    lane(old(self).state, l),
                    data@[l]@,
                ),
            final(self).num_blocks_consumed == old(self).num_blocks_consumed + 1,
            final(self).unfinished_block == old(self).unfinished_block,
            final(self).num_unfinished_bytes == old(self).num_unfinished_bytes,
            final(self).msgs == old(self).msgs,
    {
        let mut q_data = set_substates_par(data);
        let mut p_data = xor_state(&self.state, &q_data);
        permutation_p(&mut p_data);
        permutation_q(&mut q_data);
        let fed = xor_state(&self.state, &p_data);
        self.state = xor_state(&fed, &q_data);
        self.num_blocks_consumed = self.num_blocks_consumed + 1;
    }

    /// Append one byte to every lane's buffer and compress the buffered
    /// super-block once 64 bytes per lane have accumulated.
    #[verifier::loop_isolation(false)]
    #[verifier::rlimit(50)]
    fn absorb_one(&mut self, bytes: &[u8; 4])
        requires
            old(self).wf(),
            forall|l: int| 0 <= l < 4 ==> (#[trigger] old(self).msgs@[l]).len() < max_message_len(),
        ensures
            final(self).wf(),
            forall|l: int|
                0 <= l < 4 ==> (#[trigger] final(self).msgs@[l]) == old(self).msgs@[l].push(
                    bytes@[l],
                ),
    {
        let n = self.num_unfinished_bytes;
        let ghost m_old = self.msgs@;
        let ghost b_old = self.unfinished_block;
        for l in 0..4usize
            invariant
                n < 64,
                forall|ll: int|
                    0 <= ll < l ==> #[trigger] self.unfinished_block@[ll]@ == b_old@[ll]@.update(
                        n as int,
                        bytes@[ll],
                    ),
                forall|ll: int|
                    l <= ll < 4 ==> #[trigger] self.unfinished_block@[ll] == b_old@[ll],
                self.state == old(self).state,
                self.num_unfinished_bytes == old(self).num_unfinished_bytes,
                self.num_blocks_consumed == old(self).num_blocks_consumed,
                self.msgs == old(self).msgs,
        {
            let mut row = self.unfinished_block[l];
            row[n] = bytes[l];
            self.unfinished_block[l] = row;
            proof {
                assert(self.unfinished_block@[l as int]@ =~= b_old@[l as int]@.update(
                    n as int,
                    bytes@[l as int],
                ));
            }
        }
        self.msgs = Ghost(Seq::new(4, |l: int| m_old[l].push(bytes@[l])));
        self.num_unfinished_bytes = n + 1;
        let ghost blocks64 = old(self).num_blocks_consumed as int * 64;
        proof {
            assert forall|l: int| 0 <= l < 4 implies (#[trigger] self.unfinished_block@[l]@).take(
                n as int + 1,
            ) == self.msgs@[l].skip(blocks64) by {
                let upd = self.unfinished_block@[l]@;
                let tgt = self.msgs@[l].skip(blocks64);
                assert(upd == b_old@[l]@.update(n as int, bytes@[l]));
                assert(b_old@[l]@.take(n as int) == m_old[l].skip(blocks64));
                assert(self.msgs@[l] == m_old[l].push(bytes@[l]));
                assert(m_old[l].len() == blocks64 + n);
                assert forall|t: int| 0 <= t < n + 1 implies upd.take(n as int + 1)[t] == tgt[t] by {
                    if t < n {
                        assert(b_old@[l]@.take(n as int)[t] == m_old[l].skip(blocks64)[t]);
                    }
                }
                assert(upd.take(n as int + 1) =~= tgt);
            }
            assert forall|l: int| 0 <= l < 4 implies (#[trigger] self.msgs@[l]).take(blocks64)
                == m_old[l].take(blocks64) by {
                assert(self.msgs@[l].take(blocks64) =~= m_old[l].take(blocks64));
            }
        }
        if self.num_unfinished_bytes == 64 {
            let block = self.unfinished_block;
            proof {
                assert forall|l: int| 0 <= l < 4 implies self.msgs@[l].take(blocks64 + 64)
                    == m_old[l].take(blocks64) + block@[l]@ by {
                    assert(block@[l]@.take(64) =~= block@[l]@);
                    assert(self.msgs@[l].take(blocks64 + 64) =~= m_old[l].take(blocks64)
                        + block@[l]@);
                }
            }
            self.consume_single_block_parallel(&block);
            self.num_unfinished_bytes = 0;
            proof {
                let nb64 = self.num_blocks_consumed as int * 64;
                assert(nb64 == blocks64 + 64);
                assert forall|l: int| 0 <= l < 4 implies lane(self.state, l) == chain(
                    (#[trigger] self.msgs@[l]).take(nb64),
                ) by {
                    lemma_chain_snoc(m_old[l].take(blocks64), block@[l]@);
                }
                assert forall|l: int| 0 <= l < 4 implies (
                #[trigger] self.unfinished_block@[l]@).take(0) == self.msgs@[l].skip(nb64) by {
                    assert(self.msgs@[l].len() == nb64);
                    assert((self.unfinished_block@[l]@).take(0) =~= self.msgs@[l].skip(nb64));
                }
                assert(old(self).msgs@[0].len() < max_message_len());
                assert(blocks64 + 63 < MAX_BLOCKS as int * 64);
                assert(self.num_blocks_consumed as int * 64 == blocks64 + 64);
                assert(self.num_blocks_consumed <= MAX_BLOCKS);
            }
        }
    }

    /// Absorb one call's bytes into every lane. All non-empty lanes must
    /// carry the same number of bytes; a lane passed as empty while
    /// others carry data absorbs zeroes of the call's length.
    pub fn update(&mut self, data: [&[u8]; 4])
        requires
            old(self).wf(),
            lanes_agree(data),
            old(self).messages()[0].len() + call_len(data) <= max_message_len(),
        ensures
            final(self).wf(),
            forall|l: int|
                0 <= l < 4 ==> final(self).messages()[l] == old(self).messages()[l] + eff_lane(
                    data,
                    l,
                ),
    {
        let mut len: usize = data[0].len();
        if len == 0 {
            len = data[1].len();
        }
        if len == 0 {
            len = data[2].len();
        }
        if len == 0 {
            len = data[3].len();
        }
        let ghost m0 = self.msgs@;
        for i in 0..len
            invariant
                self.wf(),
                lanes_agree(data),
                len == call_len(data),
                m0[0].len() + len <= max_message_len(),
                forall|l: int| 0 <= l < 4 ==> (#[trigger] m0[l]).len() == m0[0].len(),
                forall|l: int|
                    0 <= l < 4 ==> (#[trigger] self.msgs@[l]) == m0[l] + eff_lane(data, l).take(
                        i as int,
                    ),
        {
            let bytes = [
                byte_at(data[0], i),
                byte_at(data[1], i),
                byte_at(data[2], i),
                byte_at(data[3], i),
            ];
            proof {
                assert forall|l: int| 0 <= l < 4 implies (#[trigger] self.msgs@[l]).len()
                    < max_message_len() by {
                    assert(eff_lane(data, l).take(i as int).len() == i);
                }
            }
            self.absorb_one(&bytes);
            proof {
                assert forall|l: int| 0 <= l < 4 implies (#[trigger] self.msgs@[l]) == m0[l]
                    + eff_lane(data, l).take(i + 1) by {
                    assert(bytes@[l] == eff_lane(data, l)[i as int]);
                    assert(m0[l] + eff_lane(data, l).take(i + 1) =~= (m0[l] + eff_lane(
                        data,
                        l,
                    ).take(i as int)).push(eff_lane(data, l)[i as int]));
                }
            }
        }
        proof {
            assert forall|l: int| 0 <= l < 4 implies (#[trigger] self.msgs@[l]) == m0[l] + eff_lane(
                data,
                l,
            ) by {
                assert(eff_lane(data, l).take(len as int) =~= eff_lane(data, l));
            }
        }
    }

    /// Pad every lane's stream, absorb the closing block or blocks, apply
    /// the output transformation `P(h) ^ h`, and write each lane's
    /// 32-byte digest.
    #[verifier::loop_isolation(false)]
    #[verifier::rlimit(50)]
    fn finalize(&mut self, out: &mut [[u8; 32]; 4])
        requires
            old(self).wf(),
        ensures
            forall|l: int|
                0 <= l < 4 ==> final(out)@[l]@ == groestl256(old(self).messages()[l]),
    {
        let n = self.num_unfinished_bytes;
        let blocks = self.num_blocks_consumed;
        let no_additional_block = n < 56;
        let count: u64 = if no_additional_block {
            blocks + 1
        } else {
            blocks + 2
        };
        let count_bytes = be_bytes(count);
        let ghost m_old = self.msgs@;
        let ghost blocks64 = blocks as int * 64;
        proof {
            lemma_stride64(blocks as int, n as int);
            assert forall|l: int| 0 <= l < 4 implies (#[trigger] m_old[l]).len() % 64 == n as int
                && m_old[l].len() / 64 == blocks as int && m_old[l].len() - m_old[l].len() % 64
                == blocks64 by {
                assert(m_old[l].len() == blocks as int * 64 + n as int);
            }
        }

        let mut this_data = [[0u8; 64]; 4];
        for l in 0..4usize
            invariant
                n == self.num_unfinished_bytes,
                n < 64,
                no_additional_block == (n < 56),
                count_bytes@ == be64(count),
                self == old(self),
                forall|ll: int|
                    0 <= ll < l ==> #[trigger] this_data@[ll]@ == first_pad_block(
                        self.msgs@[ll],
                        count,
                    ),
        {
            let mut blk = [0u8; 64];
            for t in 0..n
                invariant
                    n < 64,
                    l < 4,
                    self == old(self),
                    forall|tt: int|
                        0 <= tt < t ==> #[trigger] blk@[tt]
                        == self.unfinished_block@[l as int]@[tt],
                    forall|tt: int| t <= tt < 64 ==> #[trigger] blk@[tt] == 0u8,
            {
                blk[t] = self.unfinished_block[l][t];
            }
            blk[n] = 0x80;
            if no_additional_block {
                for t in 0..8usize
                    invariant
                        n < 56,
                        l < 4,
                        count_bytes@ == be64(count),
                        self == old(self),
                        forall|tt: int|
                            0 <= tt < n ==> #[trigger] blk@[tt]
                            == self.unfinished_block@[l as int]@[tt],
                        blk@[n as int] == 0x80u8,
                        forall|tt: int| n < tt < 56 ==> #[trigger] blk@[tt] == 0u8,
                        forall|tt: int|
                            56 <= tt < 56 + t ==> #[trigger] blk@[tt] == be64(count)[tt - 56],
                        forall|tt: int| 56 + t <= tt < 64 ==> #[trigger] blk@[tt] == 0u8,
                {
                    blk[56 + t] = count_bytes[t];
                }
            }
            this_data[l] = blk;
            proof {
                let ghost ml = self.msgs@[l as int];
                assert(ml.len() % 64 == n as int);
                assert forall|tt: int| 0 <= tt < n implies blk@[tt] == ml[blocks64 + tt] by {
                    assert(self.unfinished_block@[l as int]@.take(n as int) == ml.skip(blocks64));
                    assert(self.unfinished_block@[l as int]@.take(n as int)[tt] == ml.skip(
                        blocks64,
                    )[tt]);
                }
                assert(blk@ =~= first_pad_block(ml, count));
            }
        }

        let ghost h_mid = *self;
        self.consume_single_block_parallel(&this_data);
        if !no_additional_block {
            let mut next = [0u8; 64];
            for t in 0..8usize
                invariant
                    count_bytes@ == be64(count),
                    forall|tt: int| 0 <= tt < 56 ==> #[trigger] next@[tt] == 0u8,
                    forall|tt: int|
                        56 <= tt < 56 + t ==> #[trigger] next@[tt] == be64(count)[tt - 56],
                    forall|tt: int| 56 + t <= tt < 64 ==> #[trigger] next@[tt] == 0u8,
            {
                next[56 + t] = count_bytes[t];
            }
            let next_data = [next, next, next, next];
            proof {
                assert(next@ =~= second_pad_block(count));
            }
            self.consume_single_block_parallel(&next_data);
        }
        proof {
            assert forall|l: int| 0 <= l < 4 implies lane(self.state, l) == chain(
                padded(#[trigger] m_old[l]),
            ) by {
                assert(chain(m_old[l].take(blocks64)) == lane(h_mid.state, l));
                if no_additional_block {
                    lemma_padded_one_block(m_old[l]);
                    lemma_chain_snoc(m_old[l].take(blocks64), first_pad_block(m_old[l], count));
                    assert(count as int == m_old[l].len() / 64 + 1);
                } else {
                    lemma_padded_two_blocks(m_old[l]);
                    assert(count as int == m_old[l].len() / 64 + 2);
                    lemma_chain_snoc(m_old[l].take(blocks64), first_pad_block(m_old[l], count));
                    lemma_chain_snoc(
                        m_old[l].take(blocks64) + first_pad_block(m_old[l], count),
                        second_pad_block(count),
                    );
                }
            }
        }

        let prev = self.state;
        permutation_p(&mut self.state);
        self.state = xor_state(&self.state, &prev);

        let slices = get_substates_par(&self.state);
        for l in 0..4usize
            invariant
                forall|ll: int| 0 <= ll < 4 ==> #[trigger] slices@[ll]@ == lane(self.state, ll),
                forall|ll: int|
                    0 <= ll < l ==> #[trigger] out@[ll]@ == lane(self.state, ll).skip(32),
        {
            let mut d = [0u8; 32];
            for t in 0..32usize
                invariant
                    l < 4,
                    forall|ll: int| 0 <= ll < 4 ==> #[trigger] slices@[ll]@ == lane(
                        self.state,
                        ll,
                    ),
                    forall|tt: int|
                        0 <= tt < t ==> #[trigger] d@[tt] == lane(self.state, l as int)[32 + tt],
            {
                d[t] = slices[l][32 + t];
            }
            out[l] = d;
            proof {
                assert(lane(self.state, l as int).len() == 64);
                assert(d@ =~= lane(self.state, l as int).skip(32));
            }
        }
        proof {
            assert forall|l: int| 0 <= l < 4 implies out@[l]@ == groestl256(
                #[trigger] m_old[l],
            ) by {
                let h = chain(padded(m_old[l]));
                lemma_chain_len(padded(m_old[l]));
                assert(lane(self.state, l) == xor_bytes(perm_p(h), h));
            }
        }
    }

    /// Finalize a consumed instance into the caller's output slots.
    pub fn finalize_into(self, out: &mut [[u8; 32]; 4])
        requires
            self.wf(),
        ensures
            forall|l: int| 0 <= l < 4 ==> final(out)@[l]@ == groestl256(self.messages()[l]),
    {
        let mut hasher = self;
        hasher.finalize(out);
    }

    /// Finalize into the caller's output slots and return the instance to
    /// its freshly constructed value for reuse.
    pub fn finalize_into_reset(&mut self, out: &mut [[u8; 32]; 4])
        requires
            old(self).wf(),
        ensures
            forall|l: int| 0 <= l < 4 ==> final(out)@[l]@ == groestl256(old(self).messages()[l]),
            final(self).wf(),
            final(self).messages() == empty_messages(),
    {
        self.finalize(out);
        self.reset();
    }

    /// Return the instance to the initial chaining value with cleared
    /// buffer and counters: equivalent to constructing fresh.
    pub fn reset(&mut self)
        ensures
            final(self).wf(),
            final(self).messages() == empty_messages(),
    {
        *self = Self::new();
    }

    /// Hash one four-lane input in one shot: construct, absorb
    /// everything, finalize.
    pub fn digest(data: [&[u8]; 4], out: &mut [[u8; 32]; 4])
        requires
            lanes_agree(data),
            call_len(data) <= max_message_len(),
        ensures
            forall|l: int| 0 <= l < 4 ==> final(out)@[l]@ == groestl256(eff_lane(data, l)),
    {
        let mut hasher = Self::new();
        hasher.update(data);
        proof {
            assert forall|l: int| 0 <= l < 4 implies hasher.messages()[l] == eff_lane(
                data,
                l,
            ) by {
                assert(empty_messages()[l] + eff_lane(data, l) =~= eff_lane(data, l));
            }
        }
        hasher.finalize_into(out);
    }
}

impl Default for Groestl256Multi {
    /// A fresh hasher, seeded with the chaining value that encodes the
    /// 256-bit output width.
    fn default() -> (r: Self)
        ensures
            r.wf(),
            r.messages() == empty_messages(),
    {
        Self::new()
    }
}

/// The byte a lane contributes at position `i`: its own byte, or zero
/// for a lane passed as empty.
fn byte_at(d: &[u8], i: usize) -> (r: u8)
    requires
        d@.len() == 0 || i < d@.len(),
    ensures
        r == (if d@.len() == 0 {
            0u8
        } else {
            d@[i as int]
        }),
{
    if d.len() == 0 {
        0
    } else {
        d[i]
    }
}

/// The 8-byte big-endian encoding of a 64-bit count.
fn be_bytes(x: u64) -> (r: [u8; 8])
    ensures
        r@ == be64(x),
{
    let r = [
        (x >> 56) as u8,
        (x >> 48) as u8,
        (x >> 40) as u8,
        (x >> 32) as u8,
        (x >> 24) as u8,
        (x >> 16) as u8,
        (x >> 8) as u8,
        (x >> 0) as u8,
    ];
    proof {
        assert(r@ =~= be64(x));
    }
    r
}

/// Splitting a stream into two consecutive `update` calls absorbs the
/// same bytes, and therefore yields the same digests, as one call on the
/// whole stream: the absorbed streams are equal for every split point.
pub proof fn lemma_split_update_equivalence(m: Seq<u8>, x: Seq<u8>, k: int)
    requires
        0 <= k <= x.len(),
    ensures
        (m + x.take(k)) + x.skip(k) == m + x,
{
    assert((m + x.take(k)) + x.skip(k) =~= m + x);
}

/// The stream absorbed by a sequence of `update` calls, one chunk each.
pub open spec fn absorb_parts(m: Seq<u8>, parts: Seq<Seq<u8>>) -> Seq<u8>
    decreases parts.len(),
{
    if parts.len() == 0 {
        m
    } else {
        absorb_parts(m + parts[0], parts.skip(1))
    }
}

/// Splitting a stream into any sequence of `update` calls absorbs the
/// same bytes, and therefore yields the same digests, as one call on the
/// concatenation: absorbing the chunks in order absorbs their
/// concatenation, for every partition of the input.
pub proof fn lemma_many_splits_idempotence(m: Seq<u8>, parts: Seq<Seq<u8>>)
    ensures
        absorb_parts(m, parts) == m + parts.flatten(),
    decreases parts.len(),
{
    if parts.len() == 0 {
        assert(m + parts.flatten() =~= m);
    } else {
        lemma_many_splits_idempotence(m + parts[0], parts.skip(1));
        assert(parts.drop_first() =~= parts.skip(1));
        assert((m + parts[0]) + parts.skip(1).flatten() =~= m + (parts[0] + parts.skip(
            1,
        ).flatten()));
    }
}

} // verus!

