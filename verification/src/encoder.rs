//! The encoder state machine: it buffers input, parses it greedily into
//! literal and match tokens via the match finder, and drives the range
//! coder over the shared probability contexts. Under `FinishMode::Any` it
//! holds back the last few positions so that a later call — or one single
//! call over the whole input — makes byte-identical decisions; under
//! `FinishMode::End` it terminates the stream with an explicit end marker
//! and flushes the range coder.
//!
//! The write side is verified against the `se_*` functions: every `encode`
//! call returns exactly the range coder's emission (`se_tokens`, plus
//! `se_marker` when finishing) for the tokens coded in that call, and those
//! tokens provably expand back to the consumed input.

use vstd::prelude::*;
use crate::allocator::{sat_budget, Allocator};
use crate::context::{idx_match, len_base, lit_base, probs_len, spec_probs_len};
use crate::matchfind::{MatchFinder, HASH_SIZE};
use crate::props::{pack_props, spec_pack_props, Props};
use crate::rangecoder::{probs_ok, RangeEncoder, PROB_INIT};
use crate::status::{FinishMode, Status};
use crate::tokens::{
    expand_checked, lemma_apply_copy_take, lemma_expand_checked_push, Token, MAX_MATCH_LEN,
    MIN_MATCH_LEN,
};

verus! {

/// Most input bytes one session accepts, so distances and match-finder
/// entries stay within 32 bits.
pub const MAX_SESSION_INPUT: u64 = 0xffff_ff00;

/// The end marker is a match whose raw distance field is all ones, a
/// distance no window can reach.
pub const END_MARKER_DIST: u32 = 0xffff_ffff;

/// How far one token advances the stream position.
pub open spec fn token_advance(t: Token) -> int {
    match t {
        Token::Literal(_) => 1,
        Token::Match { dist, len } => len as int,
    }
}

/// How far a token sequence advances the stream position.
pub open spec fn tokens_advance(ts: Seq<Token>) -> int
    decreases ts.len(),
{
    if ts.len() == 0 {
        0
    } else {
        token_advance(ts[0]) + tokens_advance(ts.subrange(1, ts.len() as int))
    }
}

/// Appending a token adds its advance.
pub proof fn lemma_tokens_advance_push(ts: Seq<Token>, t: Token)
    ensures
        tokens_advance(ts.push(t)) == tokens_advance(ts) + token_advance(t),
    decreases ts.len(),
{
    if ts.len() == 0 {
        assert(ts.push(t)[0] == t);
        assert(ts.push(t).subrange(1, 1) =~= Seq::<Token>::empty());
        assert(tokens_advance(Seq::<Token>::empty()) == 0);
    } else {
        assert(ts.push(t)[0] == ts[0]);
        assert(ts.push(t).subrange(1, ts.len() as int + 1) =~= ts.subrange(
            1,
            ts.len() as int,
        ).push(t));
        lemma_tokens_advance_push(ts.subrange(1, ts.len() as int), t);
    }
}

/// Coding one token at stream position `pos`: the new coder state, the
/// emitted bytes, and the adapted probability table.
pub open spec fn se_token(
    s: crate::rangecoder::EncSt,
    probs: Seq<u16>,
    t: Token,
    pos: int,
    data: Seq<u8>,
    p: Props,
) -> (crate::rangecoder::EncSt, Seq<u8>, Seq<u16>) {
    let im = crate::context::spec_pos_state(p, pos);
    let pm = probs[im];
    match t {
        Token::Literal(b) => {
            let r1 = crate::rangecoder::se_encode_bit(s, pm, false);
            let probs1 = probs.update(im, crate::rangecoder::next_prob(pm, false));
            let prev: u8 = if pos == 0 {
                0
            } else {
                data[pos - 1]
            };
            let base = crate::context::pow2(p.pb as nat) as int + 256 + 256
                * crate::context::spec_lit_state(p, pos, prev);
            let r2 = crate::rangecoder::se_tree(r1.0, probs1, base, b, 1, 8);
            (r2.0, r1.1 + r2.1, r2.2)
        },
        Token::Match { dist, len } => {
            let r1 = crate::rangecoder::se_encode_bit(s, pm, true);
            let probs1 = probs.update(im, crate::rangecoder::next_prob(pm, true));
            let r2 = crate::rangecoder::se_tree(
                r1.0,
                probs1,
                crate::context::pow2(p.pb as nat) as int,
                (len - MIN_MATCH_LEN as u32) as u8,
                1,
                8,
            );
            let r3 = crate::rangecoder::se_direct_u32(r2.0, (dist - 1) as u32, 32);
            (r3.0, r1.1 + r2.1 + r3.1, r2.2)
        },
    }
}

/// Coding a token sequence starting at stream position `pos`.
pub open spec fn se_tokens(
    s: crate::rangecoder::EncSt,
    probs: Seq<u16>,
    ts: Seq<Token>,
    pos: int,
    data: Seq<u8>,
    p: Props,
) -> (crate::rangecoder::EncSt, Seq<u8>, Seq<u16>)
    decreases ts.len(),
{
    if ts.len() == 0 {
        (s, Seq::empty(), probs)
    } else {
        let r1 = se_token(s, probs, ts[0], pos, data, p);
        let r2 = se_tokens(
            r1.0,
            r1.2,
            ts.subrange(1, ts.len() as int),
            pos + token_advance(ts[0]),
            data,
            p,
        );
        (r2.0, r1.1 + r2.1, r2.2)
    }
}

/// Coding the end marker at stream position `pos` and flushing.
pub open spec fn se_marker(
    s: crate::rangecoder::EncSt,
    probs: Seq<u16>,
    pos: int,
    p: Props,
) -> (crate::rangecoder::EncSt, Seq<u8>, Seq<u16>) {
    let im = crate::context::spec_pos_state(p, pos);
    let pm = probs[im];
    let r1 = crate::rangecoder::se_encode_bit(s, pm, true);
    let probs1 = probs.update(im, crate::rangecoder::next_prob(pm, true));
    let r2 = crate::rangecoder::se_tree(
        r1.0,
        probs1,
        crate::context::pow2(p.pb as nat) as int,
        0,
        1,
        8,
    );
    let r3 = crate::rangecoder::se_direct_u32(r2.0, END_MARKER_DIST, 32);
    let r4 = crate::rangecoder::se_flush(r3.0, 5);
    (r4.0, r1.1 + r2.1 + r3.1 + r4.1, r2.2)
}

/// Coding a pushed token continues the sequence's coding at the advanced
/// position.
pub proof fn lemma_se_tokens_push(
    s: crate::rangecoder::EncSt,
    probs: Seq<u16>,
    ts: Seq<Token>,
    t: Token,
    pos: int,
    data: Seq<u8>,
    p: Props,
)
    ensures
        ({
            let r = se_tokens(s, probs, ts, pos, data, p);
            let rt = se_token(r.0, r.2, t, pos + tokens_advance(ts), data, p);
            se_tokens(s, probs, ts.push(t), pos, data, p) == (rt.0, r.1 + rt.1, rt.2)
        }),
    decreases ts.len(),
{
    if ts.len() == 0 {
        let one = ts.push(t);
        assert(one[0] == t);
        assert(one.subrange(1, 1) =~= Seq::<Token>::empty());
        let rt = se_token(s, probs, t, pos, data, p);
        assert(se_tokens(rt.0, rt.2, one.subrange(1, 1), pos + token_advance(t), data, p) == (
        rt.0, Seq::<u8>::empty(), rt.2));
        assert(se_tokens(s, probs, one, pos, data, p) == (rt.0, rt.1 + Seq::<u8>::empty(), rt.2));
        assert(rt.1 + Seq::<u8>::empty() =~= rt.1);
        assert(Seq::<u8>::empty() + rt.1 =~= rt.1);
        assert(tokens_advance(ts) == 0);
    } else {
        let rest = ts.subrange(1, ts.len() as int);
        assert(ts.push(t)[0] == ts[0]);
        assert(ts.push(t).subrange(1, ts.len() as int + 1) =~= rest.push(t));
        let r1 = se_token(s, probs, ts[0], pos, data, p);
        lemma_se_tokens_push(r1.0, r1.2, rest, t, pos + token_advance(ts[0]), data, p);
        let rr = se_tokens(r1.0, r1.2, rest, pos + token_advance(ts[0]), data, p);
        let rt = se_token(rr.0, rr.2, t, pos + token_advance(ts[0]) + tokens_advance(rest), data, p);
        assert(r1.1 + (rr.1 + rt.1) =~= (r1.1 + rr.1) + rt.1);
    }
}

/// Where an encoder session stands.
#[derive(Clone, Copy, Debug, PartialEq, Eq, Structural)]
pub enum EncState {
    /// Fresh session; properties not set yet.
    Created,
    /// Properties set and tables allocated; no input seen.
    Configured,
    /// At least one `encode` call made; the stream is still open.
    Encoding,
    /// The stream was terminated; the session takes no more input.
    Finished,
}

/// One encoding session: configuration, allocator, probability table,
/// match finder, range coder, and the input buffered so far.
pub struct Encoder {
    state: EncState,
    props: Props,
    alloc: Allocator,
    probs: Vec<u16>,
    mf: MatchFinder,
    rc: RangeEncoder,
    buf: Vec<u8>,
    pos: usize,
    toks: Ghost<Seq<Token>>,
}

impl Encoder {
    /// Where the session stands.
    pub closed spec fn state(self) -> EncState {
        self.state
    }

    /// The configuration the session was given.
    pub closed spec fn config(self) -> Props {
        self.props
    }

    /// All input bytes handed to the session so far.
    pub closed spec fn buffered(self) -> Seq<u8> {
        self.buf@
    }

    /// How many buffered bytes have been turned into tokens.
    pub closed spec fn consumed(self) -> int {
        self.pos as int
    }

    /// The tokens coded so far.
    pub closed spec fn tokens(self) -> Seq<Token> {
        self.toks@
    }

    /// Allocation budget still available to the session.
    pub closed spec fn session_budget(self) -> int {
        self.alloc.budget()
    }

    /// Number of 16-bit entries in the probability table.
    pub closed spec fn probs_words(self) -> int {
        self.probs@.len() as int
    }

    /// Number of 32-bit entries in the match-finder hash table.
    pub closed spec fn index_words(self) -> int {
        self.mf.table_len()
    }

    /// The range coder's state as the spec functions see it.
    pub closed spec fn coder(self) -> crate::rangecoder::EncSt {
        self.rc.model()
    }

    /// The adaptive probability table.
    pub closed spec fn table(self) -> Seq<u16> {
        self.probs@
    }

    /// Compressed bytes already coded but not yet handed out.
    pub closed spec fn pending_out(self) -> Seq<u8> {
        self.rc.out_seq()
    }

    /// The session invariant: in the open states the tables have their
    /// configured sizes, the coder is well-formed with a bounded carry
    /// chain, every consumed position is indexed in the match finder, and —
    /// the heart of the encoder — the tokens coded so far are well-formed
    /// and expand exactly to the consumed prefix of the buffered input.
    pub closed spec fn inv(self) -> bool {
        &&& (self.state == EncState::Created ==> self.rc.wf() && self.rc.pending() <= 1
            && self.probs@.len() == 0 && self.mf.table_len() == 0)
        &&& (self.state == EncState::Finished ==> self.probs@.len() == spec_probs_len(self.props)
            && self.mf.table_len() == HASH_SIZE && self.props.valid())
        &&& ((self.state == EncState::Configured || self.state == EncState::Encoding) ==> {
            &&& self.props.valid()
            &&& self.probs@.len() == spec_probs_len(self.props)
            &&& probs_ok(self.probs@)
            &&& self.rc.wf()
            &&& self.rc.pending() <= 1 + 82 * self.pos
            &&& self.mf.wf()
            &&& self.mf.positions() == self.pos as int
            &&& self.pos <= self.buf@.len()
            &&& self.buf@.len() <= MAX_SESSION_INPUT
            &&& expand_checked(Seq::empty(), self.props.dict_size as int, self.toks@) == Some(
                self.buf@.take(self.pos as int),
            )
        })
    }

    /// Open a fresh session around an allocator. Creation itself allocates
    /// nothing and cannot fail.
    pub fn create(alloc: Allocator) -> (r: Encoder)
        ensures
            r.state() == EncState::Created,
            r.inv(),
            r.session_budget() == alloc.budget(),
            r.coder() == (0u64, 0xffff_ffffu32, 0u8, 1int),
            r.pending_out() == Seq::<u8>::empty(),
    {
        Encoder {
            state: EncState::Created,
            props: Props::default(),
            alloc,
            probs: Vec::new(),
            mf: MatchFinder::empty(),
            rc: RangeEncoder::new(),
            buf: Vec::new(),
            pos: 0,
            toks: Ghost(Seq::empty()),
        }
    }

    /// Validate the configuration and allocate the probability table and
    /// the match-finder hash table. Must be called exactly once, before any
    /// input: a second call, or one on a used session, is rejected.
    pub fn set_props(&mut self, p: &Props) -> (r: Result<(), Status>)
        requires
            old(self).inv(),
        ensures
            final(self).inv(),
            r is Ok <==> (old(self).state() == EncState::Created && p.valid() && 2
                * spec_probs_len(*p) + 4 * HASH_SIZE <= old(self).session_budget()),
            old(self).state() != EncState::Created ==> r == Err::<(), Status>(
                Status::InvalidConfiguration,
            ) && *final(self) == *old(self),
            old(self).state() == EncState::Created && !p.valid() ==> r == Err::<(), Status>(
                Status::InvalidConfiguration,
            ) && *final(self) == *old(self),
            old(self).state() == EncState::Created && p.valid() && 2 * spec_probs_len(*p) + 4
                * HASH_SIZE > old(self).session_budget() ==> (r == Err::<(), Status>(
                Status::AllocationFailure,
            ) && final(self).state() == EncState::Created && final(self).session_budget() == old(
                self,
            ).session_budget()),
            r is Ok ==> {
                &&& final(self).state() == EncState::Configured
                &&& final(self).config() == *p
                &&& final(self).buffered() == Seq::<u8>::empty()
                &&& final(self).consumed() == 0
                &&& final(self).tokens() == Seq::<Token>::empty()
                &&& final(self).table() == Seq::new(spec_probs_len(*p) as nat, |i: int| PROB_INIT)
                &&& final(self).coder() == old(self).coder()
                &&& final(self).pending_out() == old(self).pending_out()
                &&& final(self).session_budget() == old(self).session_budget() - 2
                    * spec_probs_len(*p) - 4 * HASH_SIZE
            },
    {
        if !(self.state == EncState::Created) {
            return Err(Status::InvalidConfiguration);
        }
        if !p.is_valid() {
            return Err(Status::InvalidConfiguration);
        }
        let n = probs_len(p);
        let mut probs = match self.alloc.allocate_words(n) {
            Some(v) => v,
            None => {
                return Err(Status::AllocationFailure);
            },
        };
        let mf = match MatchFinder::create(&mut self.alloc) {
            Ok(m) => m,
            Err(e) => {
                // Roll the probability table back so the budget is intact.
                self.alloc.free_words(probs);
                return Err(e);
            },
        };
        // Start every context at the even estimate.
        let mut i: usize = 0;
        while i < n
            invariant
                i <= n,
                probs@.len() == n,
                forall|k: int| 0 <= k < i ==> (#[trigger] probs@[k]) == PROB_INIT,
            decreases n - i,
        {
            probs.set(i, PROB_INIT);
            i = i + 1;
        }
        self.probs = probs;
        self.mf = mf;
        self.props = *p;
        self.state = EncState::Configured;
        self.buf = Vec::new();
        self.pos = 0;
        self.toks = Ghost(Seq::empty());
        proof {
            assert(self.buf@.take(0) =~= Seq::<u8>::empty());
            assert(self.probs@ =~= Seq::new(spec_probs_len(*p) as nat, |i: int| PROB_INIT));
        }
        Ok(())
    }

    #[verifier::rlimit(100)]
    /// Turn buffered positions `[pos, stop)` into tokens and code them.
    /// Tokens may overrun `stop`; every decision made here sees either the
    /// full match-length lookahead or the true end of input, which is what
    /// keeps split encodes byte-identical to single ones.
    fn run(&mut self, stop: usize)
        requires
            old(self).state == EncState::Configured || old(self).state == EncState::Encoding,
            old(self).inv(),
            old(self).pos <= stop <= old(self).buf@.len(),
        ensures
            final(self).inv(),
            final(self).state == old(self).state,
            final(self).props == old(self).props,
            final(self).alloc == old(self).alloc,
            final(self).buf == old(self).buf,
            stop <= final(self).pos <= final(self).buf@.len(),
            old(self).rc.out_seq().is_prefix_of(final(self).rc.out_seq()),
            final(self).toks@.len() >= old(self).toks@.len(),
            final(self).toks@.take(old(self).toks@.len() as int) == old(self).toks@,
            ({
                let nts = final(self).toks@.skip(old(self).toks@.len() as int);
                let em = se_tokens(
                    old(self).rc.model(),
                    old(self).probs@,
                    nts,
                    old(self).pos as int,
                    old(self).buf@,
                    old(self).props,
                );
                &&& final(self).rc.model() == em.0
                &&& final(self).rc.out_seq() == old(self).rc.out_seq() + em.1
                &&& final(self).probs@ == em.2
                &&& old(self).pos + tokens_advance(nts) == final(self).pos
            }),
    {
        let ghost dict = self.props.dict_size as int;
        let ghost k0 = self.toks@.len() as int;
        let ghost out0 = self.rc.out_seq();
        proof {
            assert(self.toks@.skip(k0) =~= Seq::<Token>::empty());
            assert(self.toks@.take(k0) =~= self.toks@);
            assert(self.rc.out_seq() =~= old(self).rc.out_seq() + Seq::<u8>::empty());
        }
        while self.pos < stop
            invariant
                self.state == old(self).state,
                self.state == EncState::Configured || self.state == EncState::Encoding,
                self.props == old(self).props,
                self.alloc == old(self).alloc,
                self.buf == old(self).buf,
                self.inv(),
                stop <= self.buf@.len(),
                dict == self.props.dict_size as int,
                k0 == old(self).toks@.len() as int,
                out0.is_prefix_of(self.rc.out_seq()),
                self.toks@.len() >= old(self).toks@.len(),
                self.toks@.take(k0) == old(self).toks@,
                ({
                    let nts = self.toks@.skip(k0);
                    let em = se_tokens(
                        old(self).rc.model(),
                        old(self).probs@,
                        nts,
                        old(self).pos as int,
                        self.buf@,
                        self.props,
                    );
                    &&& self.rc.model() == em.0
                    &&& self.rc.out_seq() == old(self).rc.out_seq() + em.1
                    &&& self.probs@ == em.2
                    &&& old(self).pos + tokens_advance(nts) == self.pos
                }),
            decreases self.buf@.len() - self.pos,
        {
            let ghost pre_rc = self.rc.model();
            let ghost pre_probs = self.probs@;
            let ghost pre_toks = self.toks@;
            let ghost pre_pos = self.pos as int;
            let ghost pre_out = self.rc.out_seq();
            let ghost prev_out = self.rc.out_seq();
            let avail: usize = self.buf.len() - self.pos;
            let max_len: usize = if avail < MAX_MATCH_LEN {
                avail
            } else {
                MAX_MATCH_LEN
            };
            let d0: u32 = self.props.match_finder_depth;
            let depth: u32 = if self.props.algorithm == 0 && d0 > 4 {
                4
            } else {
                d0
            };
            let (mlen, mdist) = self.mf.find(
                &self.buf,
                self.pos,
                self.props.dict_size,
                depth,
                self.props.fast_bytes,
                max_len,
            );
            let im = idx_match(&self.props, self.pos);
            if mlen >= MIN_MATCH_LEN {
                self.rc.encode_bit(&mut self.probs, im, true);
                let ghost e1 = self.rc.out_seq().skip(pre_out.len() as int);
                let lb = len_base(&self.props);
                self.rc.encode_tree_byte(&mut self.probs, lb, (mlen - MIN_MATCH_LEN) as u8);
                let ghost e2 = self.rc.out_seq().skip(pre_out.len() as int + e1.len() as int);
                self.rc.encode_direct_u32((mdist as u32) - 1);
                let ghost e3 = self.rc.out_seq().skip(pre_out.len() as int + e1.len() as int + e2.len() as int);
                let ghost snap = *self;
                let mut q: usize = 0;
                while q < mlen
                    invariant
                        q <= mlen,
                        self.pos + mlen <= self.buf@.len(),
                        self.buf@.len() <= MAX_SESSION_INPUT,
                        self.mf.wf(),
                        self.mf.positions() == self.pos + q,
                        self.state == snap.state,
                        self.props == snap.props,
                        self.alloc == snap.alloc,
                        self.buf == snap.buf,
                        self.probs == snap.probs,
                        self.rc == snap.rc,
                        self.pos == snap.pos,
                        self.toks == snap.toks,
                    decreases mlen - q,
                {
                    self.mf.insert(&self.buf, self.pos + q);
                    q = q + 1;
                }
                let ghost t = Token::Match { dist: mdist as u32, len: mlen as u32 };
                proof {
                    lemma_expand_checked_push(Seq::empty(), dict, self.toks@, t);
                    lemma_apply_copy_take(self.buf@, self.pos as int, mdist as int, mlen as int);
                    lemma_se_tokens_push(
                        old(self).rc.model(),
                        old(self).probs@,
                        pre_toks.skip(k0),
                        t,
                        old(self).pos as int,
                        self.buf@,
                        self.props,
                    );
                    lemma_tokens_advance_push(pre_toks.skip(k0), t);
                }
                self.toks = Ghost(self.toks@.push(t));
                self.pos = self.pos + mlen;
                proof {
                    assert(self.toks@.skip(k0) =~= pre_toks.skip(k0).push(t));
                    assert(self.toks@.take(k0) =~= old(self).toks@);
                    let em0 = se_tokens(old(self).rc.model(), old(self).probs@, pre_toks.skip(k0),
                    old(self).pos as int, self.buf@, self.props);
                    let rt = se_token(em0.0, em0.2, t, pre_pos, self.buf@, self.props);
                    let im_s = crate::context::spec_pos_state(self.props, pre_pos);
                    let pm = pre_probs[im_s];
                    let r1 = crate::rangecoder::se_encode_bit(pre_rc, pm, true);
                    assert(self.rc.out_seq() =~= ((pre_out + r1.1) + e2) + e3);
                    assert(e2 =~= crate::rangecoder::se_tree(
                        r1.0,
                        pre_probs.update(im_s, crate::rangecoder::next_prob(pm, true)),
                        lb as int,
                        (mlen - MIN_MATCH_LEN) as u8,
                        1,
                        8,
                    ).1);
                    assert(rt.1 =~= (r1.1 + e2) + e3);
                    assert(self.rc.out_seq() =~= pre_out + rt.1);
                    assert(self.rc.out_seq() =~= old(self).rc.out_seq() + (em0.1 + rt.1));
                }
            } else {
                let b: u8 = self.buf[self.pos];
                let prev: u8 = if self.pos == 0 {
                    0
                } else {
                    self.buf[self.pos - 1]
                };
                self.rc.encode_bit(&mut self.probs, im, false);
                let ghost e1 = self.rc.out_seq().skip(pre_out.len() as int);
                let base = lit_base(&self.props, self.pos, prev);
                self.rc.encode_tree_byte(&mut self.probs, base, b);
                let ghost e2 = self.rc.out_seq().skip(pre_out.len() as int + e1.len() as int);
                self.mf.insert(&self.buf, self.pos);
                let ghost t = Token::Literal(b);
                proof {
                    lemma_expand_checked_push(Seq::empty(), dict, self.toks@, t);
                    assert(self.buf@.take(self.pos as int).push(b) =~= self.buf@.take(
                        self.pos as int + 1,
                    ));
                    lemma_se_tokens_push(
                        old(self).rc.model(),
                        old(self).probs@,
                        pre_toks.skip(k0),
                        t,
                        old(self).pos as int,
                        self.buf@,
                        self.props,
                    );
                    lemma_tokens_advance_push(pre_toks.skip(k0), t);
                }
                self.toks = Ghost(self.toks@.push(t));
                self.pos = self.pos + 1;
                proof {
                    assert(self.toks@.skip(k0) =~= pre_toks.skip(k0).push(t));
                    assert(self.toks@.take(k0) =~= old(self).toks@);
                    let em0 = se_tokens(old(self).rc.model(), old(self).probs@, pre_toks.skip(k0),
                    old(self).pos as int, self.buf@, self.props);
                    let rt = se_token(em0.0, em0.2, t, pre_pos, self.buf@, self.props);
                    let im_s = crate::context::spec_pos_state(self.props, pre_pos);
                    let pm = pre_probs[im_s];
                    let r1 = crate::rangecoder::se_encode_bit(pre_rc, pm, false);
                    assert(self.rc.out_seq() =~= (pre_out + r1.1) + e2);
                    assert(e2 =~= crate::rangecoder::se_tree(
                        r1.0,
                        pre_probs.update(im_s, crate::rangecoder::next_prob(pm, false)),
                        base as int,
                        b,
                        1,
                        8,
                    ).1);
                    assert(rt.1 =~= r1.1 + e2);
                    assert(self.rc.out_seq() =~= pre_out + rt.1);
                    assert(self.rc.out_seq() =~= old(self).rc.out_seq() + (em0.1 + rt.1));
                }
            }
            proof {
                crate::rangecoder::lemma_prefix_trans(out0, prev_out, self.rc.out_seq());
            }
        }
    }

    /// Consume `input` into the session and return the compressed bytes the
    /// range coder can already materialize. `FinishMode::Any` leaves the
    /// stream open and holds back undecidable tail positions;
    /// `FinishMode::End` codes everything, appends the end marker, flushes,
    /// and closes the session. Success is owed whenever the session is open
    /// and the total input fits the session bound.
    pub fn encode(&mut self, input: &Vec<u8>, finish: FinishMode) -> (r: Result<Vec<u8>, Status>)
        requires
            old(self).inv(),
        ensures
            final(self).inv(),
            r is Ok <==> ((old(self).state() == EncState::Configured || old(self).state()
                == EncState::Encoding) && old(self).buffered().len() + input@.len()
                <= MAX_SESSION_INPUT),
            r is Err ==> r == Err::<Vec<u8>, Status>(Status::InvalidConfiguration) && *final(self)
                == *old(self),
            r is Ok ==> {
                &&& final(self).buffered() == old(self).buffered() + input@
                &&& final(self).config() == old(self).config()
                &&& final(self).state() == (if finish == FinishMode::End {
                    EncState::Finished
                } else {
                    EncState::Encoding
                })
                &&& expand_checked(
                    Seq::empty(),
                    old(self).config().dict_size as int,
                    final(self).tokens(),
                ) == Some(final(self).buffered().take(final(self).consumed()))
                &&& final(self).consumed() + 256 >= final(self).buffered().len()
                &&& (finish == FinishMode::End ==> final(self).consumed() == final(self).buffered().len()
                    && expand_checked(
                    Seq::empty(),
                    old(self).config().dict_size as int,
                    final(self).tokens(),
                ) == Some(old(self).buffered() + input@))
            },
            r matches Ok(chunk) ==> ({
                let nts = final(self).tokens().skip(old(self).tokens().len() as int);
                let em = se_tokens(
                    old(self).coder(),
                    old(self).table(),
                    nts,
                    old(self).consumed(),
                    final(self).buffered(),
                    old(self).config(),
                );
                &&& final(self).tokens().take(old(self).tokens().len() as int) == old(
                    self,
                ).tokens()
                &&& old(self).consumed() + tokens_advance(nts) == final(self).consumed()
                &&& (finish == FinishMode::Any ==> chunk@ == old(self).pending_out() + em.1
                    && final(self).coder() == em.0 && final(self).table() == em.2)
                &&& (finish == FinishMode::End ==> ({
                    let mk = se_marker(
                        em.0,
                        em.2,
                        final(self).buffered().len() as int,
                        old(self).config(),
                    );
                    chunk@ == (old(self).pending_out() + em.1) + mk.1 && final(self).table()
                        == mk.2
                }))
                &&& final(self).pending_out() == Seq::<u8>::empty()
            }),
    {
        if !(self.state == EncState::Configured || self.state == EncState::Encoding) {
            return Err(Status::InvalidConfiguration);
        }
        let n: usize = input.len();
        let bl: usize = self.buf.len();
        if n as u64 > MAX_SESSION_INPUT || bl as u64 > MAX_SESSION_INPUT - n as u64 {
            return Err(Status::InvalidConfiguration);
        }
        // Buffer the whole input: the call consumes it even when the coder
        // holds symbols back.
        let ghost buf0 = self.buf@;
        let ghost snap = *self;
        let mut i: usize = 0;
        while i < n
            invariant
                i <= n,
                n == input@.len(),
                self.buf@ == buf0 + input@.take(i as int),
                self.state == snap.state,
                self.props == snap.props,
                self.alloc == snap.alloc,
                self.probs == snap.probs,
                self.mf == snap.mf,
                self.rc == snap.rc,
                self.pos == snap.pos,
                self.toks == snap.toks,
            decreases n - i,
        {
            let b: u8 = input[i];
            self.buf.push(b);
            proof {
                assert(self.buf@ =~= buf0 + input@.take(i as int + 1));
            }
            i = i + 1;
        }
        proof {
            assert(self.buf@ =~= buf0 + input@);
            assert(self.buf@.take(self.pos as int) =~= buf0.take(self.pos as int));
        }
        let total: usize = self.buf.len();
        let stop: usize = if finish == FinishMode::End {
            total
        } else if total >= 256 && total - 256 > self.pos {
            total - 256
        } else {
            self.pos
        };
        self.run(stop);
        proof {
            self.mf.lemma_wf_table_len();
        }
        if finish == FinishMode::End {
            self.emit_marker();
            self.state = EncState::Finished;
        } else {
            self.state = EncState::Encoding;
        }
        proof {
            let nts = self.toks@.skip(old(self).toks@.len() as int);
            let em = se_tokens(
                old(self).rc.model(),
                old(self).probs@,
                nts,
                old(self).pos as int,
                self.buf@,
                self.props,
            );
            if finish == FinishMode::End {
                assert(self.rc.out_seq() =~= (old(self).rc.out_seq() + em.1) + se_marker(
                    em.0,
                    em.2,
                    self.buf@.len() as int,
                    self.props,
                ).1);
            } else {
                assert(self.rc.out_seq() =~= old(self).rc.out_seq() + em.1);
            }
        }
        Ok(self.rc.take_output())
    }

    /// Code the end marker (a match with an unreachable distance) and flush
    /// the range coder.
    fn emit_marker(&mut self)
        requires
            old(self).state == EncState::Configured || old(self).state == EncState::Encoding,
            old(self).inv(),
        ensures
            final(self).state == old(self).state,
            final(self).props == old(self).props,
            final(self).alloc == old(self).alloc,
            final(self).buf == old(self).buf,
            final(self).pos == old(self).pos,
            final(self).toks == old(self).toks,
            final(self).mf == old(self).mf,
            final(self).probs@.len() == old(self).probs@.len(),
            probs_ok(final(self).probs@),
            ({
                let mk = se_marker(
                    old(self).rc.model(),
                    old(self).probs@,
                    old(self).pos as int,
                    old(self).props,
                );
                &&& final(self).rc.model() == mk.0
                &&& final(self).rc.out_seq() == old(self).rc.out_seq() + mk.1
                &&& final(self).probs@ == mk.2
            }),
    {
        let ghost pre_rc = self.rc.model();
        let ghost pre_probs = self.probs@;
        let ghost pre_out = self.rc.out_seq();
        let im = idx_match(&self.props, self.pos);
        self.rc.encode_bit(&mut self.probs, im, true);
        let ghost e1 = self.rc.out_seq().skip(pre_out.len() as int);
        let lb = len_base(&self.props);
        self.rc.encode_tree_byte(&mut self.probs, lb, 0);
        let ghost e2 = self.rc.out_seq().skip(pre_out.len() as int + e1.len() as int);
        self.rc.encode_direct_u32(END_MARKER_DIST);
        let ghost e3 = self.rc.out_seq().skip(
            pre_out.len() as int + e1.len() as int + e2.len() as int,
        );
        self.rc.flush();
        proof {
            let mk = se_marker(pre_rc, pre_probs, old(self).pos as int, old(self).props);
            let im_s = crate::context::spec_pos_state(old(self).props, old(self).pos as int);
            let pm = pre_probs[im_s];
            let r1 = crate::rangecoder::se_encode_bit(pre_rc, pm, true);
            assert(e1 =~= r1.1);
            assert(self.rc.out_seq() =~= (((pre_out + e1) + e2) + e3) + crate::rangecoder::se_flush(
                crate::rangecoder::se_direct_u32(
                    crate::rangecoder::se_tree(
                        r1.0,
                        pre_probs.update(im_s, crate::rangecoder::next_prob(pm, true)),
                        lb as int,
                        0,
                        1,
                        8,
                    ).0,
                    END_MARKER_DIST,
                    32,
                ).0,
                5,
            ).1);
            assert(self.rc.out_seq() =~= pre_out + mk.1);
        }
    }

    /// Close the session, releasing its table buffers back to the
    /// allocator, and hand the allocator back: exactly the bytes the
    /// probability table and the hash table were charged for come back.
    pub fn destroy(self) -> (r: Allocator)
        ensures
            r.budget() == sat_budget(
                sat_budget(self.session_budget() + 2 * self.probs_words()) + 4
                    * self.index_words(),
            ),
            r.budget() >= self.session_budget(),
            self.inv() && self.state() != EncState::Created ==> self.probs_words()
                == spec_probs_len(self.config()) && self.index_words() == HASH_SIZE,
    {
        proof {
            if self.inv() && (self.state == EncState::Configured || self.state
                == EncState::Encoding) {
                self.mf.lemma_wf_table_len();
            }
        }
        let Encoder { state: _, props: _, mut alloc, probs, mf, rc: _, buf: _, pos: _, toks: _ } =
            self;
        alloc.free_words(probs);
        mf.destroy(&mut alloc);
        alloc
    }
}

/// One-shot encode: configure a session from `p`, compress all of `input`
/// as one terminated stream, and return the compressed bytes together with
/// the serialized properties a decoder needs.
pub fn lzma_encode(input: &Vec<u8>, p: &Props, alloc: Allocator) -> (r: Result<
    (Vec<u8>, Vec<u8>),
    Status,
>)
    ensures
        r is Ok <==> (p.valid() && 2 * spec_probs_len(*p) + 4 * HASH_SIZE <= alloc.budget()
            && input@.len() <= MAX_SESSION_INPUT),
        !p.valid() ==> r == Err::<(Vec<u8>, Vec<u8>), Status>(Status::InvalidConfiguration),
        p.valid() && 2 * spec_probs_len(*p) + 4 * HASH_SIZE > alloc.budget() ==> r == Err::<
            (Vec<u8>, Vec<u8>),
            Status,
        >(Status::AllocationFailure),
        r matches Ok(out) ==> out.1@ == spec_pack_props(*p),
        r matches Ok(out) ==> (exists|ts: Seq<Token>|
            {
                &&& #[trigger] expand_checked(Seq::empty(), p.dict_size as int, ts) == Some(
                    input@,
                )
                &&& ({
                    let em = se_tokens(
                        (0u64, 0xffff_ffffu32, 0u8, 1int),
                        Seq::new(spec_probs_len(*p) as nat, |i: int| PROB_INIT),
                        ts,
                        0,
                        input@,
                        *p,
                    );
                    out.0@ == em.1 + se_marker(em.0, em.2, input@.len() as int, *p).1
                })
            }),
{
    let mut enc = Encoder::create(alloc);
    match enc.set_props(p) {
        Ok(u) => u,
        Err(e) => {
            let _alloc = enc.destroy();
            return Err(e);
        },
    };
    let compressed = match enc.encode(input, FinishMode::End) {
        Ok(v) => v,
        Err(e) => {
            let _alloc = enc.destroy();
            return Err(e);
        },
    };
    proof {
        let wit = enc.tokens();
        assert(wit.skip(0) =~= wit);
        assert(Seq::<u8>::empty() + input@ =~= input@);
        let em = se_tokens(
            (0u64, 0xffff_ffffu32, 0u8, 1int),
            Seq::new(spec_probs_len(*p) as nat, |i: int| PROB_INIT),
            wit,
            0,
            input@,
            *p,
        );
        assert(Seq::<u8>::empty() + em.1 =~= em.1);
        assert(compressed@ =~= em.1 + se_marker(em.0, em.2, input@.len() as int, *p).1);
    }
    let props_bytes = pack_props(p);
    let _alloc = enc.destroy();
    Ok((compressed, props_bytes))
}

} // verus!
