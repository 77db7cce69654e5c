//! Layout of the probability table and the context indexing shared by the
//! encoder and the decoder. Both sides compute every index through these
//! functions, so their probability evolutions mirror each other
//! structurally.
//!
//! The table holds, in order: one match-flag probability per position
//! state (`pow2(pb)` entries), one 256-entry tree for match lengths, and
//! one 256-entry literal tree per literal state (`pow2(lc + lp)` trees).

use vstd::prelude::*;
use crate::props::Props;

verus! {

/// Mathematical power of two.
pub open spec fn pow2(n: nat) -> nat
    decreases n,
{
    if n == 0 {
        1nat
    } else {
        2 * pow2((n - 1) as nat)
    }
}

/// The small powers of two the layout uses.
pub fn pow2_small(n: u8) -> (r: usize)
    requires
        n <= 8,
    ensures
        r == pow2(n as nat),
        1 <= r <= 256,
{
    proof {
        lemma_pow2_values();
    }
    if n == 0 {
        1
    } else if n == 1 {
        2
    } else if n == 2 {
        4
    } else if n == 3 {
        8
    } else if n == 4 {
        16
    } else if n == 5 {
        32
    } else if n == 6 {
        64
    } else if n == 7 {
        128
    } else {
        256
    }
}

/// Total number of probability entries a configuration needs.
pub open spec fn spec_probs_len(p: Props) -> int {
    pow2(p.pb as nat) as int + 256 + 256 * (pow2((p.lc + p.lp) as nat) as int)
}

/// Total number of probability entries, at most 4368 for a valid
/// configuration.
pub fn probs_len(p: &Props) -> (r: usize)
    requires
        p.valid(),
    ensures
        r == spec_probs_len(*p),
        r <= 4368,
{
    let pbn = pow2_small(p.pb);
    let litn = pow2_small(p.lc + p.lp);
    proof {
        lemma_pow2_values();
        lemma_pow2_le((p.pb) as nat, 4);
        lemma_pow2_le((p.lc + p.lp) as nat, 4);
    }
    pbn + 256 + 256 * litn
}

/// The small values of `pow2` the layout uses.
pub proof fn lemma_pow2_values()
    ensures
        pow2(0) == 1,
        pow2(1) == 2,
        pow2(2) == 4,
        pow2(3) == 8,
        pow2(4) == 16,
        pow2(5) == 32,
        pow2(6) == 64,
        pow2(7) == 128,
        pow2(8) == 256,
{
    assert(pow2(0) == 1);
    assert(pow2(1) == 2);
    assert(pow2(2) == 4);
    assert(pow2(3) == 8);
    assert(pow2(4) == 16);
    assert(pow2(5) == 32);
    assert(pow2(6) == 64);
    assert(pow2(7) == 128);
    assert(pow2(8) == 256);
}

/// Monotonicity of `pow2`.
pub proof fn lemma_pow2_le(a: nat, b: nat)
    requires
        a <= b,
    ensures
        pow2(a) <= pow2(b),
    decreases b,
{
    if a < b {
        lemma_pow2_le(a, (b - 1) as nat);
        assert(pow2(b) == 2 * pow2((b - 1) as nat));
    }
}

/// The position state: the low `pb` bits of the stream position.
pub open spec fn spec_pos_state(p: Props, pos: int) -> int {
    pos % pow2(p.pb as nat) as int
}

/// Index of the match-flag probability for a position.
pub fn idx_match(p: &Props, pos: usize) -> (r: usize)
    requires
        p.valid(),
    ensures
        r == spec_pos_state(*p, pos as int),
        r < spec_probs_len(*p),
{
    let pbn = pow2_small(p.pb);
    pos % pbn
}

/// First index of the match-length tree.
pub fn len_base(p: &Props) -> (r: usize)
    requires
        p.valid(),
    ensures
        r == pow2(p.pb as nat),
        r + 256 <= spec_probs_len(*p),
{
    pow2_small(p.pb)
}

/// The literal state combining position bits and the high bits of the
/// previous byte.
pub open spec fn spec_lit_state(p: Props, pos: int, prev: u8) -> int {
    (pos % pow2(p.lp as nat) as int) * pow2(p.lc as nat) as int + prev as int / pow2(
        (8 - p.lc) as nat,
    ) as int
}

/// First index of the literal tree for a position and previous byte.
pub fn lit_base(p: &Props, pos: usize, prev: u8) -> (r: usize)
    requires
        p.valid(),
    ensures
        r == pow2(p.pb as nat) + 256 + 256 * spec_lit_state(*p, pos as int, prev),
        r + 256 <= spec_probs_len(*p),
{
    let pbn = pow2_small(p.pb);
    let lpn = pow2_small(p.lp);
    let lcn = pow2_small(p.lc);
    let top = (prev as usize) / pow2_small(8 - p.lc);
    proof {
        let lc = p.lc as nat;
        let lp = p.lp as nat;
        lemma_pow2_values();
        lemma_pow2_add(lc, (8 - lc) as nat);
        lemma_pow2_add(lp, lc);
        lemma_pow2_le(lp, 4);
        lemma_pow2_le(lc, 4);
        lemma_pow2_le(lp + lc, 4);
        assert(pow2(lp + lc) == pow2((p.lc + p.lp) as nat));
        assert(((prev as int) / (pow2((8 - lc) as nat) as int)) < (pow2(lc) as int)) by (
        nonlinear_arith)
            requires
                (prev as int) < 256,
                pow2(lc) * pow2((8 - lc) as nat) == 256,
                pow2((8 - lc) as nat) >= 1,
                pow2(lc) >= 1,
        ;
        assert(((pos as int % (pow2(lp) as int)) * (pow2(lc) as int) + (prev as int) / (pow2(
            (8 - lc) as nat,
        ) as int)) < (pow2(lp + lc) as int)) by (nonlinear_arith)
            requires
                (pos as int % (pow2(lp) as int)) < (pow2(lp) as int),
                0 <= (pos as int % (pow2(lp) as int)),
                ((prev as int) / (pow2((8 - lc) as nat) as int)) < (pow2(lc) as int),
                pow2(lp + lc) == pow2(lp) * pow2(lc),
                pow2(lc) >= 1,
        ;
        assert(((pos as int % (pow2(lp) as int)) * (pow2(lc) as int)) <= 16 * 16) by (
        nonlinear_arith)
            requires
                0 <= (pos as int % (pow2(lp) as int)),
                (pos as int % (pow2(lp) as int)) < (pow2(lp) as int),
                pow2(lp) <= 16,
                pow2(lc) <= 16,
                pow2(lc) >= 1,
        ;
    }
    let state = (pos % lpn) * lcn + top;
    pbn + 256 + 256 * state
}

/// `pow2` turns addition into multiplication.
pub proof fn lemma_pow2_add(a: nat, b: nat)
    ensures
        pow2(a + b) == pow2(a) * pow2(b),
    decreases a,
{
    if a == 0 {
        assert(pow2(0 + b) == 1 * pow2(b));
    } else {
        lemma_pow2_add((a - 1) as nat, b);
        assert(pow2(a + b) == 2 * pow2((a + b - 1) as nat));
        assert(2 * ((pow2((a - 1) as nat)) * pow2(b)) == (2 * pow2((a - 1) as nat)) * pow2(b))
            by (nonlinear_arith);
    }
}

} // verus!
