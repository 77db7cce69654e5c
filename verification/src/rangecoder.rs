//! The adaptive binary range coder: two symmetric automata that encode and
//! decode one bit at a time against an 11-bit probability, renormalizing the
//! shrinking range and adapting the probability by a fixed shift after every
//! coded bit. The encoder buffers carry propagation (a pending run of `0xff`
//! bytes behind a cache byte); the decoder mirrors the encoder byte-for-byte.
//!
//! Every operation on either side carries an exact contract: the new coder
//! state and the bytes emitted or consumed are spec functions (`se_*` for
//! the write side, `sd_*` for the read side) of the old state and the
//! symbol.

use vstd::prelude::*;
use vstd::pervasive::VecAdditionalExecFns;
use crate::status::Status;

verus! {

/// Probabilities live in an 11-bit scale: this is the total weight.
pub const PROB_TOTAL: u16 = 2048;

/// Initial, even probability for every context.
pub const PROB_INIT: u16 = 1024;

/// A probability is kept away from both ends of its scale so every coded
/// bit has a non-empty sub-range.
pub open spec fn prob_ok(p: u16) -> bool {
    1 <= p <= 2047
}

/// Every entry of a probability table is in range.
pub open spec fn probs_ok(ps: Seq<u16>) -> bool {
    forall|i: int| 0 <= i < ps.len() ==> prob_ok(#[trigger] ps[i])
}

/// The adaptive update both automata apply after coding one bit: move the
/// estimate a 1/32 step toward the observed outcome.
pub open spec fn next_prob(p: u16, bit: bool) -> u16 {
    if bit {
        (p - p / 32) as u16
    } else {
        (p + (2048 - p) / 32) as u16
    }
}

/// The adaptive update keeps a probability in range.
pub proof fn lemma_next_prob_ok(p: u16, bit: bool)
    requires
        prob_ok(p),
    ensures
        prob_ok(next_prob(p, bit)),
{
    if bit {
        assert(p / 32 <= p - 1) by (nonlinear_arith)
            requires
                1 <= p,
        ;
    } else {
        let q = 2048 - p as int;
        assert(q / 32 <= q - 1) by (nonlinear_arith)
            requires
                1 <= q,
        ;
    }
}

/// Bounds of the proportional split `(range >> 11) * p` both automata
/// compute: it is at least a renormalizable sliver and leaves at least as
/// much on the other side of the range.
pub proof fn lemma_split_bounds(r: u32, p: u16)
    requires
        r >= 0x100_0000,
        prob_ok(p),
    ensures
        r >> 11 == r / 2048,
        0x2000 <= (r >> 11) as int * (p as int),
        (r >> 11) as int * (p as int) <= r - (r >> 11),
{
    assert(r >> 11 == r / 2048) by (bit_vector);
    assert(r / 2048 >= 0x2000);
    assert(r / 2048 <= 0x1f_ffff) by (nonlinear_arith)
        requires
            r <= 0xffff_ffff,
    ;
    assert((r / 2048) * 2048 <= r) by (nonlinear_arith);
    let rtop = r / 2048;
    assert(rtop * (p as int) >= rtop) by (nonlinear_arith)
        requires
            p >= 1,
            rtop >= 0,
    ;
    assert(rtop * (p as int) <= rtop * 2047) by (nonlinear_arith)
        requires
            p <= 2047,
            rtop >= 0,
    ;
    assert(rtop * 2047 == rtop * 2048 - rtop) by (nonlinear_arith);
}

/// Apply the adaptive update to one table entry.
fn bump_prob(probs: &mut Vec<u16>, idx: usize, bit: bool)
    requires
        idx < old(probs)@.len(),
        probs_ok(old(probs)@),
    ensures
        final(probs)@ == old(probs)@.update(idx as int, next_prob(old(probs)@[idx as int], bit)),
        probs_ok(final(probs)@),
{
    let p: u16 = probs[idx];
    proof {
        assert(prob_ok(p));
        lemma_next_prob_ok(p, bit);
        assert(p >> 5 == p / 32) by (bit_vector);
        let q: u16 = (2048 - p) as u16;
        assert(q >> 5 == q / 32) by (bit_vector);
    }
    let np: u16 = if bit {
        p - (p >> 5)
    } else {
        p + ((2048 - p) >> 5)
    };
    probs.set(idx, np);
    proof {
        assert(np == next_prob(p, bit));
        assert forall|i: int| 0 <= i < final(probs)@.len() implies prob_ok(
            #[trigger] final(probs)@[i],
        ) by {
            if i != idx {
                assert(final(probs)@[i] == old(probs)@[i]);
            }
        }
    }
}

/// The encoder's visible state: the carry accumulator `low`, the range,
/// the deferred cache byte, and the count of deferred bytes. Every encoding
/// operation below is, by its contract, exactly the corresponding spec
/// function of this state, together with the bytes it appends — so the
/// write side is a mathematical function of the symbols fed to it.
pub type EncSt = (u64, u32, u8, int);

/// The byte run a carry resolution emits: the cache byte plus a run of
/// `0xff` bytes, each incremented by the carry.
pub open spec fn se_run(b: u32, carry: u32, n: nat) -> Seq<u8>
    decreases n,
{
    if n == 0 {
        Seq::empty()
    } else {
        seq![((b + carry) as u32 & 0xff) as u8] + se_run(0xff, carry, (n - 1) as nat)
    }
}

/// One `shift_low`: resolve the carry chain (emitting the deferred run) or
/// defer one more byte, then slide the accumulator one byte left.
pub open spec fn se_shift_low(s: EncSt) -> (EncSt, Seq<u8>) {
    let low32 = s.0 & 0xffff_ffff;
    if low32 < 0xff00_0000 || s.0 >= 0x1_0000_0000 {
        (
            ((s.0 << 8) & 0xffff_ffff, s.1, ((s.0 >> 24) & 0xff) as u8, 1int),
            se_run(s.2 as u32, (s.0 >> 32) as u32, s.3 as nat),
        )
    } else {
        (((s.0 << 8) & 0xffff_ffff, s.1, s.2, s.3 + 1), Seq::empty())
    }
}

/// One renormalization step: shift a byte out when the range has fallen
/// below the threshold.
pub open spec fn se_renorm_step(s: EncSt) -> (EncSt, Seq<u8>) {
    if s.1 < 0x100_0000 {
        let r = se_shift_low(s);
        ((r.0.0, r.0.1 << 8, r.0.2, r.0.3), r.1)
    } else {
        (s, Seq::empty())
    }
}

/// Full renormalization: at most two steps.
pub open spec fn se_renorm(s: EncSt) -> (EncSt, Seq<u8>) {
    let r1 = se_renorm_step(s);
    let r2 = se_renorm_step(r1.0);
    (r2.0, r1.1 + r2.1)
}

/// Encoding one adaptive bit against probability `p`: narrow the range to
/// the chosen side and renormalize.
pub open spec fn se_encode_bit(s: EncSt, p: u16, bit: bool) -> (EncSt, Seq<u8>) {
    let bound = (s.1 >> 11) as int * p as int;
    if !bit {
        se_renorm((s.0, bound as u32, s.2, s.3))
    } else {
        se_renorm(((s.0 + bound) as u64, ((s.1 as int) - bound) as u32, s.2, s.3))
    }
}

/// Encoding one evenly split bit.
pub open spec fn se_direct_bit(s: EncSt, bit: bool) -> (EncSt, Seq<u8>) {
    let half = s.1 >> 1;
    if bit {
        se_renorm(((s.0 + half as int) as u64, half, s.2, s.3))
    } else {
        se_renorm((s.0, half, s.2, s.3))
    }
}

/// Encoding the low `n` bits of `value`, most significant first.
pub open spec fn se_direct_u32(s: EncSt, value: u32, n: nat) -> (EncSt, Seq<u8>)
    decreases n,
{
    if n == 0 {
        (s, Seq::empty())
    } else {
        let bit = (value >> ((n - 1) as u32)) & 1 == 1;
        let r1 = se_direct_bit(s, bit);
        let r2 = se_direct_u32(r1.0, value, (n - 1) as nat);
        (r2.0, r1.1 + r2.1)
    }
}

/// Encoding `n` more bits of `sym` through the probability tree rooted at
/// `probs[base]`, currently at node `m`: the new coder state, the emitted
/// bytes, and the adapted table.
pub open spec fn se_tree(
    s: EncSt,
    probs: Seq<u16>,
    base: int,
    sym: u8,
    m: u32,
    n: nat,
) -> (EncSt, Seq<u8>, Seq<u16>)
    decreases n,
{
    if n == 0 {
        (s, Seq::empty(), probs)
    } else {
        let bit = ((sym as u32) >> ((n - 1) as u32)) & 1 == 1;
        let p = probs[base + m as int];
        let r1 = se_encode_bit(s, p, bit);
        let r2 = se_tree(
            r1.0,
            probs.update(base + m as int, next_prob(p, bit)),
            base,
            sym,
            ((2 * (m as int) + (if bit {
                1int
            } else {
                0int
            })) as u32),
            (n - 1) as nat,
        );
        (r2.0, r1.1 + r2.1, r2.2)
    }
}

/// Flushing `n` accumulator bytes at stream end.
pub open spec fn se_flush(s: EncSt, n: nat) -> (EncSt, Seq<u8>)
    decreases n,
{
    if n == 0 {
        (s, Seq::empty())
    } else {
        let r1 = se_shift_low(s);
        let r2 = se_flush(r1.0, (n - 1) as nat);
        (r2.0, r1.1 + r2.1)
    }
}

/// Encoder side of the range coder. It accumulates output bytes internally;
/// `take_output` hands them to the caller.
pub struct RangeEncoder {
    low: u64,
    range: u32,
    cache: u8,
    cache_size: u64,
    out: Vec<u8>,
}

impl RangeEncoder {
    /// The encoder's state as the spec functions see it.
    pub closed spec fn model(self) -> EncSt {
        (self.low, self.range, self.cache, self.cache_size as int)
    }

    /// Bytes emitted so far (pending carry bytes are still buffered).
    pub closed spec fn out_seq(self) -> Seq<u8> {
        self.out@
    }

    /// Number of deferred bytes (the cache byte plus a run of `0xff`)
    /// awaiting carry resolution.
    pub closed spec fn pending(self) -> int {
        self.cache_size as int
    }

    /// The coder is between operations: the range is renormalized, the
    /// carry accumulator small, and at least one byte is pending.
    pub closed spec fn wf(self) -> bool {
        &&& self.range >= 0x100_0000
        &&& self.low as int + self.range as int <= 0x2_0000_0000
        &&& self.cache_size >= 1
    }

    /// A fresh encoder: full range, nothing emitted, one pending zero byte
    /// (the stream's leading byte).
    pub fn new() -> (r: RangeEncoder)
        ensures
            r.wf(),
            r.out_seq() == Seq::<u8>::empty(),
            r.pending() == 1,
            r.model() == (0u64, 0xffff_ffffu32, 0u8, 1int),
    {
        RangeEncoder { low: 0, range: 0xffff_ffff, cache: 0, cache_size: 1, out: Vec::new() }
    }

    /// Emit the top byte of `low` (or defer it behind a possible carry) and
    /// slide the accumulator one byte left.
    fn shift_low(&mut self)
        requires
            old(self).low < 0x2_0000_0000,
            1 <= old(self).cache_size <= 0x1000_0000_0000_0000,
        ensures
            final(self).low == (old(self).low % 0x100_0000) * 0x100,
            final(self).range == old(self).range,
            1 <= final(self).cache_size <= old(self).cache_size + 1,
            old(self).out@.is_prefix_of(final(self).out@),
            ({
                let sp = se_shift_low(old(self).model());
                final(self).model() == sp.0 && final(self).out@ == old(self).out@ + sp.1
            }),
    {
        let low32: u64 = self.low & 0xffff_ffff;
        proof {
            let lo = self.low;
            assert((lo & 0xffff_ffff) == lo % 0x1_0000_0000) by (bit_vector);
            assert(lo < 0x2_0000_0000 ==> (lo >> 32) <= 1) by (bit_vector);
        }
        if low32 < 0xff00_0000 || self.low >= 0x1_0000_0000 {
            let carry: u32 = (self.low >> 32) as u32;
            let ghost out0 = self.out@;
            let ghost cache0 = self.cache;
            let ghost cs0 = self.cache_size;
            let mut b: u32 = self.cache as u32;
            let mut i: u64 = self.cache_size;
            while i > 0
                invariant
                    b <= 0xff,
                    carry <= 1,
                    i <= cs0,
                    i > 0 ==> (i == cs0 ==> b == cache0 as u32) && (i < cs0 ==> b == 0xff),
                    i == 0 ==> cs0 > 0,
                    out0.is_prefix_of(self.out@),
                    out0 + se_run(cache0 as u32, carry, cs0 as nat) == self.out@ + se_run(
                        b,
                        carry,
                        i as nat,
                    ),
                    self.low == old(self).low,
                    self.range == old(self).range,
                    self.cache == old(self).cache,
                    self.cache_size == old(self).cache_size,
                decreases i,
            {
                let ghost prev = self.out@;
                let ghost bg = b;
                let ghost ig = i;
                let sum: u32 = b + carry;
                proof {
                    assert(sum & 0xff < 0x100) by (bit_vector);
                }
                self.out.push((sum & 0xff) as u8);
                proof {
                    assert(out0 =~= self.out@.subrange(0, out0.len() as int));
                }
                b = 0xff;
                i = i - 1;
                proof {
                    assert(se_run(bg, carry, ig as nat) == seq![((bg + carry) as u32 & 0xff) as u8]
                        + se_run(0xff, carry, (ig - 1) as nat));
                    assert((bg + carry) as u32 == sum);
                    assert(prev + se_run(bg, carry, ig as nat) =~= self.out@ + se_run(
                        b,
                        carry,
                        i as nat,
                    ));
                }
            }
            proof {
                assert(se_run(b, carry, 0) == Seq::<u8>::empty());
                assert(out0 + se_run(cache0 as u32, carry, cs0 as nat) =~= self.out@);
            }
            let top: u64 = (self.low >> 24) & 0xff;
            proof {
                let lo = self.low;
                assert(((lo >> 24) & 0xff) < 0x100) by (bit_vector);
            }
            self.cache = top as u8;
            self.cache_size = 0;
        }
        self.cache_size = self.cache_size + 1;
        let ghost lo_before = self.low;
        self.low = (self.low << 8) & 0xffff_ffff;
        proof {
            assert(lo_before < 0x2_0000_0000 ==> ((lo_before << 8) & 0xffff_ffff) == (lo_before
                % 0x100_0000) * 0x100) by (bit_vector);
            assert(old(self).out@.is_prefix_of(self.out@));
            assert(self.out@ =~= old(self).out@ + se_shift_low(old(self).model()).1);
        }
    }

    /// Renormalize after one coded bit: emit bytes until the range is back
    /// above the renormalization threshold.
    fn renorm(&mut self)
        requires
            old(self).range >= 0x2000,
            old(self).low as int + old(self).range as int <= 0x2_0000_0000,
            1 <= old(self).cache_size <= 0x1000_0000_0000_0000 - 2,
        ensures
            final(self).wf(),
            final(self).cache_size <= old(self).cache_size + 2,
            old(self).out@.is_prefix_of(final(self).out@),
            ({
                let sp = se_renorm(old(self).model());
                final(self).model() == sp.0 && final(self).out@ == old(self).out@ + sp.1
            }),
    {
        let ghost out0 = self.out@;
        let ghost m0 = self.model();
        if self.range < 0x100_0000 {
            self.shift_low();
            let ghost r0 = self.range;
            self.range = self.range << 8;
            proof {
                assert(r0 < 0x100_0000 ==> (r0 << 8) == r0 * 0x100) by (bit_vector);
            }
        }
        proof {
            assert(self.model() == se_renorm_step(m0).0);
            assert(self.out@ =~= out0 + se_renorm_step(m0).1);
        }
        let ghost m1 = self.model();
        let ghost out1 = self.out@;
        if self.range < 0x100_0000 {
            self.shift_low();
            let ghost r1 = self.range;
            self.range = self.range << 8;
            proof {
                assert(r1 < 0x100_0000 ==> (r1 << 8) == r1 * 0x100) by (bit_vector);
            }
        }
        proof {
            assert(self.model() == se_renorm_step(m1).0);
            assert(self.out@ =~= out1 + se_renorm_step(m1).1);
            assert(self.out@ =~= out0 + se_renorm(m0).1);
            assert(out0.is_prefix_of(self.out@));
        }
    }

    /// Encode one bit against the probability at `probs[idx]`, splitting the
    /// range in proportion to the estimate, then adapt the estimate exactly
    /// as the decoder will.
    pub fn encode_bit(&mut self, probs: &mut Vec<u16>, idx: usize, bit: bool)
        requires
            old(self).wf(),
            old(self).pending() <= 0x1000_0000_0000,
            idx < old(probs)@.len(),
            probs_ok(old(probs)@),
        ensures
            final(self).wf(),
            final(self).pending() <= old(self).pending() + 2,
            old(self).out_seq().is_prefix_of(final(self).out_seq()),
            final(probs)@ == old(probs)@.update(
                idx as int,
                next_prob(old(probs)@[idx as int], bit),
            ),
            probs_ok(final(probs)@),
            ({
                let sp = se_encode_bit(old(self).model(), old(probs)@[idx as int], bit);
                final(self).model() == sp.0 && final(self).out_seq() == old(self).out_seq()
                    + sp.1
            }),
    {
        let p: u16 = probs[idx];
        assert(prob_ok(p));
        proof {
            lemma_split_bounds(self.range, p);
        }
        let rtop: u32 = self.range >> 11;
        let bound: u32 = rtop * (p as u32);
        if !bit {
            self.range = bound;
        } else {
            self.low = self.low + bound as u64;
            self.range = self.range - bound;
        }
        bump_prob(probs, idx, bit);
        self.renorm();
    }

    /// Encode one bit with a fixed, even split (no probability adaptation),
    /// used for the raw distance bits.
    pub fn encode_direct_bit(&mut self, bit: bool)
        requires
            old(self).wf(),
            old(self).pending() <= 0x1000_0000_0000,
        ensures
            final(self).wf(),
            final(self).pending() <= old(self).pending() + 2,
            old(self).out_seq().is_prefix_of(final(self).out_seq()),
            ({
                let sp = se_direct_bit(old(self).model(), bit);
                final(self).model() == sp.0 && final(self).out_seq() == old(self).out_seq()
                    + sp.1
            }),
    {
        self.range = self.range >> 1;
        proof {
            let r = old(self).range;
            assert(r >= 0x100_0000 ==> (r >> 1) >= 0x80_0000 && (r >> 1) as int + (r >> 1) as int
                <= r as int) by (bit_vector);
        }
        if bit {
            self.low = self.low + self.range as u64;
        }
        self.renorm();
    }

    /// Encode the 32 bits of `value`, most significant first, as direct bits.
    pub fn encode_direct_u32(&mut self, value: u32)
        requires
            old(self).wf(),
            old(self).pending() <= 0xff_ffff_ffff,
        ensures
            final(self).wf(),
            final(self).pending() <= old(self).pending() + 64,
            old(self).out_seq().is_prefix_of(final(self).out_seq()),
            ({
                let sp = se_direct_u32(old(self).model(), value, 32);
                final(self).model() == sp.0 && final(self).out_seq() == old(self).out_seq()
                    + sp.1
            }),
    {
        let ghost out0 = self.out@;
        let mut j: u32 = 0;
        while j < 32
            invariant
                self.wf(),
                j <= 32,
                old(self).pending() <= 0xff_ffff_ffff,
                self.pending() <= old(self).pending() + 2 * j,
                out0.is_prefix_of(self.out@),
                se_direct_u32(old(self).model(), value, 32).0 == se_direct_u32(
                    self.model(),
                    value,
                    (32 - j) as nat,
                ).0,
                out0 + se_direct_u32(old(self).model(), value, 32).1 == self.out@
                    + se_direct_u32(self.model(), value, (32 - j) as nat).1,
            decreases 32 - j,
        {
            let ghost prev = self.out@;
            let ghost pre = self.model();
            let ghost jj = j;
            let bit: bool = (value >> (31 - j)) & 1 == 1;
            self.encode_direct_bit(bit);
            proof {
                lemma_prefix_trans(out0, prev, self.out@);
            }
            j = j + 1;
            proof {
                assert(se_direct_u32(pre, value, (32 - jj) as nat).1 == se_direct_bit(pre, bit).1
                    + se_direct_u32(self.model(), value, (32 - j) as nat).1);
                assert(prev + se_direct_u32(pre, value, (32 - jj) as nat).1 =~= self.out@
                    + se_direct_u32(self.model(), value, (32 - j) as nat).1);
                assert(out0 + se_direct_u32(old(self).model(), value, 32).1 =~= self.out@
                    + se_direct_u32(self.model(), value, (32 - j) as nat).1);
            }
        }
        proof {
            assert(final(self).out_seq() =~= old(self).out_seq() + se_direct_u32(
                old(self).model(),
                value,
                32,
            ).1);
        }
    }

    /// Encode eight bits of `sym`, most significant first, through the
    /// 256-entry probability tree rooted at `probs[base]`.
    pub fn encode_tree_byte(&mut self, probs: &mut Vec<u16>, base: usize, sym: u8)
        requires
            old(self).wf(),
            old(self).pending() <= 0xff_ffff_ffff,
            base + 256 <= old(probs)@.len(),
            probs_ok(old(probs)@),
        ensures
            final(self).wf(),
            final(self).pending() <= old(self).pending() + 16,
            old(self).out_seq().is_prefix_of(final(self).out_seq()),
            final(probs)@.len() == old(probs)@.len(),
            probs_ok(final(probs)@),
            ({
                let sp = se_tree(old(self).model(), old(probs)@, base as int, sym, 1, 8);
                final(self).model() == sp.0 && final(self).out_seq() == old(self).out_seq()
                    + sp.1 && final(probs)@ == sp.2
            }),
    {
        let ghost out0 = self.out@;
        let nprobs: usize = probs.len();
        let mut m: u32 = 1;
        let mut j: u32 = 0;
        proof {
            assert(1u32 < (1u32 << 1)) by (bit_vector);
        }
        while j < 8
            invariant
                self.wf(),
                j <= 8,
                1 <= m && m < (1u32 << (j + 1)),
                j <= 7 ==> m < 256,
                old(self).pending() <= 0xff_ffff_ffff,
                self.pending() <= old(self).pending() + 2 * j,
                out0.is_prefix_of(self.out@),
                base + 256 <= probs@.len() && probs@.len() == nprobs,
                probs@.len() == old(probs)@.len(),
                probs_ok(probs@),
                se_tree(old(self).model(), old(probs)@, base as int, sym, 1, 8).0 == se_tree(
                    self.model(),
                    probs@,
                    base as int,
                    sym,
                    m,
                    (8 - j) as nat,
                ).0,
                se_tree(old(self).model(), old(probs)@, base as int, sym, 1, 8).2 == se_tree(
                    self.model(),
                    probs@,
                    base as int,
                    sym,
                    m,
                    (8 - j) as nat,
                ).2,
                out0 + se_tree(old(self).model(), old(probs)@, base as int, sym, 1, 8).1
                    == self.out@ + se_tree(self.model(), probs@, base as int, sym, m, (8 - j)
                    as nat).1,
            decreases 8 - j,
        {
            let ghost prev = self.out@;
            let ghost pre = self.model();
            let ghost pre_probs = probs@;
            let ghost m_pre = m;
            let bit: bool = ((sym as u32) >> (7 - j)) & 1 == 1;
            self.encode_bit(probs, base + (m as usize), bit);
            proof {
                lemma_prefix_trans(out0, prev, self.out@);
            }
            let mm = m;
            let ghost jj = j;
            m = 2 * m + (if bit {
                1
            } else {
                0
            });
            j = j + 1;
            proof {
                assert(jj < 8 && 1 <= mm && mm < (1u32 << (jj + 1)) ==> 2 * mm + 1 < (1u32 << (jj
                    + 2)) && (jj + 1 <= 7 ==> 2 * mm + 1 < 256)) by (bit_vector);
                assert(se_tree(pre, pre_probs, base as int, sym, m_pre, (8 - jj) as nat).1
                    == se_encode_bit(pre, pre_probs[base + m_pre as int], bit).1 + se_tree(
                    self.model(),
                    probs@,
                    base as int,
                    sym,
                    m,
                    (8 - j) as nat,
                ).1);
                assert(prev + se_tree(pre, pre_probs, base as int, sym, m_pre, (8 - jj) as nat).1
                    =~= self.out@ + se_tree(self.model(), probs@, base as int, sym, m, (8 - j)
                    as nat).1);
                assert(out0 + se_tree(old(self).model(), old(probs)@, base as int, sym, 1, 8).1
                    =~= self.out@ + se_tree(self.model(), probs@, base as int, sym, m, (8 - j)
                    as nat).1);
            }
        }
        proof {
            assert(final(self).out_seq() =~= old(self).out_seq() + se_tree(
                old(self).model(),
                old(probs)@,
                base as int,
                sym,
                1,
                8,
            ).1);
        }
    }

    /// Flush the carry chain and the accumulator so every coded bit is
    /// materialized in the output. This ends the stream: the coder is not
    /// well-formed for further symbols afterwards.
    pub fn flush(&mut self)
        requires
            old(self).wf(),
            old(self).pending() <= 0xff_ffff_ffff,
        ensures
            final(self).pending() <= old(self).pending() + 5,
            old(self).out_seq().is_prefix_of(final(self).out_seq()),
            ({
                let sp = se_flush(old(self).model(), 5);
                final(self).model() == sp.0 && final(self).out_seq() == old(self).out_seq()
                    + sp.1
            }),
    {
        let ghost out0 = self.out@;
        let mut j: usize = 0;
        while j < 5
            invariant
                j <= 5,
                old(self).pending() <= 0xff_ffff_ffff,
                self.low < 0x2_0000_0000,
                1 <= self.cache_size <= old(self).cache_size + j,
                out0.is_prefix_of(self.out@),
                se_flush(old(self).model(), 5).0 == se_flush(self.model(), (5 - j) as nat).0,
                out0 + se_flush(old(self).model(), 5).1 == self.out@ + se_flush(
                    self.model(),
                    (5 - j) as nat,
                ).1,
            decreases 5 - j,
        {
            let ghost prev = self.out@;
            let ghost pre = self.model();
            let ghost jj = j;
            self.shift_low();
            proof {
                lemma_prefix_trans(out0, prev, self.out@);
            }
            j = j + 1;
            proof {
                assert(se_flush(pre, (5 - jj) as nat).1 == se_shift_low(pre).1 + se_flush(
                    self.model(),
                    (5 - j) as nat,
                ).1);
                assert(prev + se_flush(pre, (5 - jj) as nat).1 =~= self.out@ + se_flush(
                    self.model(),
                    (5 - j) as nat,
                ).1);
                assert(out0 + se_flush(old(self).model(), 5).1 =~= self.out@ + se_flush(
                    self.model(),
                    (5 - j) as nat,
                ).1);
            }
        }
        proof {
            assert(final(self).out_seq() =~= old(self).out_seq() + se_flush(
                old(self).model(),
                5,
            ).1);
        }
    }

    /// Hand out everything emitted so far and clear the internal buffer.
    pub fn take_output(&mut self) -> (r: Vec<u8>)
        ensures
            r@ == old(self).out_seq(),
            final(self).out_seq() == Seq::<u8>::empty(),
            final(self).wf() == old(self).wf(),
            final(self).pending() == old(self).pending(),
            final(self).model() == old(self).model(),
    {
        let mut r: Vec<u8> = Vec::new();
        let mut i: usize = 0;
        while i < self.out.len()
            invariant
                i == r@.len() <= self.out@.len(),
                r@ =~= self.out@.subrange(0, i as int),
                self.low == old(self).low,
                self.range == old(self).range,
                self.cache == old(self).cache,
                self.cache_size == old(self).cache_size,
                self.out == old(self).out,
            decreases self.out@.len() - i,
        {
            let b: u8 = self.out[i];
            r.push(b);
            proof {
                assert(r@ =~= self.out@.subrange(0, i + 1));
            }
            i = i + 1;
        }
        proof {
            assert(r@ =~= self.out@);
        }
        self.out = Vec::new();
        r
    }
}

/// The decoder's visible state: the code register, the range, and the
/// input position. Every decoding operation below is, by its contract,
/// exactly the corresponding spec function of this state — so the whole
/// read side is a mathematical function of the stream.
pub type DecSt = (u32, u32, int);

/// Reading one input byte, as the spec sees it: the byte and the advanced
/// position, or nothing when the stream is exhausted.
pub open spec fn sd_byte(src: Seq<u8>, pos: int) -> Option<(u8, int)> {
    if 0 <= pos < src.len() {
        Some((src[pos], pos + 1))
    } else {
        None
    }
}

/// One renormalization step: when the range has fallen below the
/// threshold, pull the next byte into the code register and widen both by
/// one byte.
pub open spec fn sd_renorm_step(s: DecSt, src: Seq<u8>) -> Option<DecSt> {
    if s.1 < 0x100_0000 {
        match sd_byte(src, s.2) {
            Some(bp) => Some((((s.0 << 8) | (bp.0 as u32)), s.1 << 8, bp.1)),
            None => None,
        }
    } else {
        Some(s)
    }
}

/// Full renormalization: at most two steps bring the range back above the
/// threshold.
pub open spec fn sd_renorm(s: DecSt, src: Seq<u8>) -> Option<DecSt> {
    match sd_renorm_step(s, src) {
        Some(s1) => sd_renorm_step(s1, src),
        None => None,
    }
}

/// Decoding one adaptive bit against probability `p`: split the range in
/// proportion to the estimate, take the side the code register falls in,
/// renormalize.
pub open spec fn sd_decode_bit(s: DecSt, p: u16, src: Seq<u8>) -> Option<(bool, DecSt)> {
    let bound = (s.1 >> 11) as int * p as int;
    if (s.0 as int) < bound {
        match sd_renorm((s.0, bound as u32, s.2), src) {
            Some(s2) => Some((false, s2)),
            None => None,
        }
    } else {
        match sd_renorm((((s.0 as int) - bound) as u32, ((s.1 as int) - bound) as u32, s.2), src) {
            Some(s2) => Some((true, s2)),
            None => None,
        }
    }
}

/// Decoding one evenly split bit.
pub open spec fn sd_direct_bit(s: DecSt, src: Seq<u8>) -> Option<(bool, DecSt)> {
    let half = s.1 >> 1;
    if s.0 >= half {
        match sd_renorm((((s.0 as int) - (half as int)) as u32, half, s.2), src) {
            Some(s2) => Some((true, s2)),
            None => None,
        }
    } else {
        match sd_renorm((s.0, half, s.2), src) {
            Some(s2) => Some((false, s2)),
            None => None,
        }
    }
}

/// Decoding `n` evenly split bits into `acc`, most significant first.
pub open spec fn sd_direct_u32(s: DecSt, src: Seq<u8>, n: nat, acc: u32) -> Option<(u32, DecSt)>
    decreases n,
{
    if n == 0 {
        Some((acc, s))
    } else {
        match sd_direct_bit(s, src) {
            Some(bs) => sd_direct_u32(
                bs.1,
                src,
                (n - 1) as nat,
                (acc << 1) | (if bs.0 {
                    1u32
                } else {
                    0u32
                }),
            ),
            None => None,
        }
    }
}

/// Decoding `n` more bits through the probability tree rooted at
/// `probs[base]`, currently at node `m`: the decoded byte, the new coder
/// state, and the adapted table.
pub open spec fn sd_tree(
    s: DecSt,
    probs: Seq<u16>,
    base: int,
    src: Seq<u8>,
    m: u32,
    n: nat,
) -> Option<(u8, DecSt, Seq<u16>)>
    decreases n,
{
    if n == 0 {
        Some((((m as int) - 256) as u8, s, probs))
    } else {
        let p = probs[base + m as int];
        match sd_decode_bit(s, p, src) {
            Some(bs) => sd_tree(
                bs.1,
                probs.update(base + m as int, next_prob(p, bs.0)),
                base,
                src,
                ((2 * (m as int) + (if bs.0 {
                    1int
                } else {
                    0int
                })) as u32),
                (n - 1) as nat,
            ),
            None => None,
        }
    }
}

/// The primed state a stream's five-byte head yields: a zero lead byte and
/// four big-endian code bytes, or nothing when the head is short or the
/// lead byte nonzero.
pub open spec fn sd_init(src: Seq<u8>) -> Option<DecSt> {
    if src.len() < 5 || src[0] != 0 {
        None
    } else {
        Some(
            (
                ((src[1] as u32) << 24) | ((src[2] as u32) << 16) | ((src[3] as u32) << 8) | (
                src[4] as u32),
                0xffff_ffffu32,
                5int,
            ),
        )
    }
}

/// Decoder side of the range coder. It walks a caller-supplied input
/// buffer, consuming exactly the bytes the encoder emitted.
pub struct RangeDecoder {
    code: u32,
    range: u32,
    pos: usize,
}

impl RangeDecoder {
    /// The decoder's state as the spec functions see it.
    pub closed spec fn model(self) -> DecSt {
        (self.code, self.range, self.pos as int)
    }

    /// The decoder is between operations: the range is renormalized.
    pub closed spec fn wf(self) -> bool {
        self.range >= 0x100_0000
    }

    /// How many input bytes have been consumed.
    pub closed spec fn pos(self) -> int {
        self.pos as int
    }

    /// Start decoding at the head of a compressed stream: a zero lead byte
    /// followed by the four big-endian bytes priming the code register.
    pub fn init(src: &Vec<u8>) -> (r: Result<RangeDecoder, Status>)
        ensures
            src@.len() < 5 ==> (r matches Err(e) && e == Status::InsufficientInput),
            src@.len() >= 5 && src@[0] != 0 ==> (r matches Err(e) && e == Status::DataError),
            src@.len() >= 5 && src@[0] == 0 ==> (r matches Ok(d) && d.wf() && d.pos() == 5
                && sd_init(src@) == Some(d.model())),
            r matches Err(e) ==> sd_init(src@) is None,
    {
        if src.len() < 5 {
            return Err(Status::InsufficientInput);
        }
        if src[0] != 0 {
            return Err(Status::DataError);
        }
        let code: u32 = ((src[1] as u32) << 24) | ((src[2] as u32) << 16) | ((src[3] as u32) << 8)
            | (src[4] as u32);
        Ok(RangeDecoder { code, range: 0xffff_ffff, pos: 5 })
    }

    /// How many input bytes have been consumed, as a runtime value.
    pub fn position(&self) -> (r: usize)
        ensures
            r as int == self.pos(),
            r as int == self.model().2,
    {
        self.pos
    }

    /// Consume one input byte, or report that the stream is truncated.
    fn next_byte(&mut self, src: &Vec<u8>) -> (r: Result<u8, Status>)
        requires
            old(self).pos() <= src@.len(),
        ensures
            final(self).range == old(self).range,
            final(self).code == old(self).code,
            old(self).pos() <= final(self).pos() <= src@.len(),
            r matches Ok(b) ==> sd_byte(src@, old(self).pos()) == Some((b, final(self).pos())),
            r matches Err(e) ==> e == Status::InsufficientInput && sd_byte(src@, old(self).pos())
                is None && *final(self) == *old(self),
    {
        if self.pos < src.len() {
            let b: u8 = src[self.pos];
            self.pos = self.pos + 1;
            Ok(b)
        } else {
            Err(Status::InsufficientInput)
        }
    }

    /// Renormalize after one decoded bit, pulling in one byte per shift,
    /// exactly mirroring the encoder's emission points.
    fn renorm(&mut self, src: &Vec<u8>) -> (r: Result<(), Status>)
        requires
            old(self).range >= 0x2000,
            old(self).pos() <= src@.len(),
        ensures
            old(self).pos() <= final(self).pos() <= src@.len(),
            r matches Ok(u) ==> final(self).wf() && sd_renorm(old(self).model(), src@) == Some(
                final(self).model(),
            ),
            r matches Err(e) ==> e == Status::InsufficientInput && sd_renorm(
                old(self).model(),
                src@,
            ) is None,
    {
        if self.range < 0x100_0000 {
            let b = self.next_byte(src)?;
            let ghost r0 = self.range;
            self.range = self.range << 8;
            self.code = (self.code << 8) | (b as u32);
            proof {
                assert(r0 < 0x100_0000 && r0 >= 0x2000 ==> (r0 << 8) == r0 * 0x100) by (
                bit_vector);
            }
        }
        if self.range < 0x100_0000 {
            let b = self.next_byte(src)?;
            let ghost r1 = self.range;
            self.range = self.range << 8;
            self.code = (self.code << 8) | (b as u32);
            proof {
                assert(r1 < 0x100_0000 ==> (r1 << 8) == r1 * 0x100) by (bit_vector);
            }
        }
        Ok(())
    }

    /// Decode one bit against the probability at `probs[idx]`, adapting the
    /// estimate exactly as the encoder did.
    pub fn decode_bit(&mut self, src: &Vec<u8>, probs: &mut Vec<u16>, idx: usize) -> (r: Result<
        bool,
        Status,
    >)
        requires
            old(self).wf(),
            old(self).pos() <= src@.len(),
            idx < old(probs)@.len(),
            probs_ok(old(probs)@),
        ensures
            old(self).pos() <= final(self).pos() <= src@.len(),
            probs_ok(final(probs)@),
            final(probs)@.len() == old(probs)@.len(),
            r matches Ok(bit) ==> final(self).wf() && final(probs)@ == old(probs)@.update(
                idx as int,
                next_prob(old(probs)@[idx as int], bit),
            ) && sd_decode_bit(old(self).model(), old(probs)@[idx as int], src@) == Some(
                (bit, final(self).model()),
            ),
            r matches Err(e) ==> e == Status::InsufficientInput && sd_decode_bit(
                old(self).model(),
                old(probs)@[idx as int],
                src@,
            ) is None,
    {
        let p: u16 = probs[idx];
        assert(prob_ok(p));
        proof {
            lemma_split_bounds(self.range, p);
        }
        let rtop: u32 = self.range >> 11;
        let bound: u32 = rtop * (p as u32);
        if self.code < bound {
            self.range = bound;
            bump_prob(probs, idx, false);
            self.renorm(src)?;
            Ok(false)
        } else {
            self.code = self.code - bound;
            self.range = self.range - bound;
            bump_prob(probs, idx, true);
            self.renorm(src)?;
            Ok(true)
        }
    }

    /// Decode one evenly split bit, the mirror of `encode_direct_bit`.
    pub fn decode_direct_bit(&mut self, src: &Vec<u8>) -> (r: Result<bool, Status>)
        requires
            old(self).wf(),
            old(self).pos() <= src@.len(),
        ensures
            old(self).pos() <= final(self).pos() <= src@.len(),
            r matches Ok(bit) ==> final(self).wf() && sd_direct_bit(old(self).model(), src@)
                == Some((bit, final(self).model())),
            r matches Err(e) ==> e == Status::InsufficientInput && sd_direct_bit(
                old(self).model(),
                src@,
            ) is None,
    {
        self.range = self.range >> 1;
        proof {
            let r = old(self).range;
            assert(r >= 0x100_0000 ==> (r >> 1) >= 0x80_0000) by (bit_vector);
        }
        let bit: bool = if self.code >= self.range {
            self.code = self.code - self.range;
            true
        } else {
            false
        };
        self.renorm(src)?;
        Ok(bit)
    }

    /// Decode 32 direct bits into a value, most significant bit first.
    pub fn decode_direct_u32(&mut self, src: &Vec<u8>) -> (r: Result<u32, Status>)
        requires
            old(self).wf(),
            old(self).pos() <= src@.len(),
        ensures
            old(self).pos() <= final(self).pos() <= src@.len(),
            r matches Ok(v) ==> final(self).wf() && sd_direct_u32(old(self).model(), src@, 32, 0)
                == Some((v, final(self).model())),
            r matches Err(e) ==> e == Status::InsufficientInput && sd_direct_u32(
                old(self).model(),
                src@,
                32,
                0,
            ) is None,
    {
        let mut value: u32 = 0;
        let mut j: u32 = 0;
        while j < 32
            invariant
                self.wf(),
                j <= 32,
                old(self).pos() <= self.pos() <= src@.len(),
                self.pos() <= src@.len(),
                sd_direct_u32(old(self).model(), src@, 32, 0) == sd_direct_u32(
                    self.model(),
                    src@,
                    (32 - j) as nat,
                    value,
                ),
            decreases 32 - j,
        {
            let ghost pre = self.model();
            let ghost prev_value = value;
            let bit = self.decode_direct_bit(src)?;
            value = (value << 1) | (if bit {
                1
            } else {
                0
            });
            j = j + 1;
            proof {
                assert(sd_direct_u32(pre, src@, (32 - (j - 1)) as nat, prev_value)
                    == sd_direct_u32(self.model(), src@, (32 - j) as nat, value));
            }
        }
        Ok(value)
    }

    /// Decode eight bits through the 256-entry probability tree rooted at
    /// `probs[base]`, the mirror of `encode_tree_byte`.
    pub fn decode_tree_byte(&mut self, src: &Vec<u8>, probs: &mut Vec<u16>, base: usize) -> (r:
        Result<u8, Status>)
        requires
            old(self).wf(),
            old(self).pos() <= src@.len(),
            base + 256 <= old(probs)@.len(),
            probs_ok(old(probs)@),
        ensures
            old(self).pos() <= final(self).pos() <= src@.len(),
            probs_ok(final(probs)@),
            final(probs)@.len() == old(probs)@.len(),
            r matches Ok(v) ==> final(self).wf() && sd_tree(
                old(self).model(),
                old(probs)@,
                base as int,
                src@,
                1,
                8,
            ) == Some((v, final(self).model(), final(probs)@)),
            r matches Err(e) ==> e == Status::InsufficientInput && sd_tree(
                old(self).model(),
                old(probs)@,
                base as int,
                src@,
                1,
                8,
            ) is None,
    {
        let nprobs: usize = probs.len();
        let mut m: u32 = 1;
        let mut j: u32 = 0;
        proof {
            assert(1u32 < (1u32 << 1) && (1u32 << 0) <= 1u32) by (bit_vector);
        }
        while j < 8
            invariant
                self.wf(),
                j <= 8,
                1 <= m && m < (1u32 << (j + 1)),
                (1u32 << j) <= m,
                j <= 7 ==> m < 256,
                old(self).pos() <= self.pos() <= src@.len(),
                self.pos() <= src@.len(),
                base + 256 <= probs@.len() && probs@.len() == nprobs,
                nprobs == old(probs)@.len(),
                probs_ok(probs@),
                sd_tree(old(self).model(), old(probs)@, base as int, src@, 1, 8) == sd_tree(
                    self.model(),
                    probs@,
                    base as int,
                    src@,
                    m,
                    (8 - j) as nat,
                ),
            decreases 8 - j,
        {
            let ghost pre = self.model();
            let ghost probs_pre = probs@;
            let ghost m_pre = m;
            let bit = self.decode_bit(src, probs, base + (m as usize))?;
            let mm = m;
            let ghost jj = j;
            m = 2 * m + (if bit {
                1
            } else {
                0
            });
            j = j + 1;
            proof {
                assert(jj < 8 && 1 <= mm && mm < (1u32 << (jj + 1)) ==> 2 * mm + 1 < (1u32 << (jj
                    + 2)) && (jj + 1 <= 7 ==> 2 * mm + 1 < 256)) by (bit_vector);
                assert(jj < 8 && (1u32 << jj) <= mm ==> (1u32 << (jj + 1)) <= 2 * mm) by (
                bit_vector);
                assert(sd_tree(pre, probs_pre, base as int, src@, m_pre, (8 - jj) as nat)
                    == sd_tree(self.model(), probs@, base as int, src@, m, (8 - j) as nat));
            }
        }
        proof {
            let mf = m;
            assert((1u32 << 8) <= mf && mf < (1u32 << 9) ==> 256 <= mf < 512) by (bit_vector);
        }
        Ok((m - 256) as u8)
    }
}

/// Prefix order on byte sequences is transitive.
pub proof fn lemma_prefix_trans(a: Seq<u8>, b: Seq<u8>, c: Seq<u8>)
    requires
        a.is_prefix_of(b),
        b.is_prefix_of(c),
    ensures
        a.is_prefix_of(c),
{
    assert(a =~= c.subrange(0, a.len() as int));
}

} // verus!
