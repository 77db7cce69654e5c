//! The decoder state machine: it rebuilds a fresh probability table from
//! the serialized properties, reads range-coder symbols, and reconstructs
//! literals and back-reference copies into the output buffer, which doubles
//! as the dictionary window. Every decoded back-reference is checked
//! against the bytes produced so far and the dictionary bound before a
//! single byte is copied; a stream that violates either is rejected as
//! corrupt.
//!
//! The whole read side is verified against `spec_decode_stream`: decoding
//! returns exactly that function of the stream, the properties and the
//! declared length — output, consumed count, and failure status alike.

use vstd::prelude::*;
use crate::allocator::{sat_budget, Allocator};
use crate::context::{idx_match, len_base, lit_base, pow2, probs_len, spec_lit_state,
    spec_pos_state, spec_probs_len};
use crate::encoder::END_MARKER_DIST;
use crate::props::{spec_unpack_props, unpack_props, Props};
use crate::rangecoder::{next_prob, probs_ok, sd_decode_bit, sd_direct_u32, sd_init, sd_tree,
    DecSt, RangeDecoder, PROB_INIT};
use crate::status::{FinishMode, Status};
use crate::tokens::{
    apply_copy, expand_checked, lemma_apply_copy_len, lemma_expand_checked_push, Token,
    MIN_MATCH_LEN,
};

verus! {

/// The whole decode loop as a mathematical function: from a coder state, a
/// probability table and the output produced so far, what the rest of the
/// stream decodes to — the finished output and the number of input bytes
/// consumed, or the exact failure status. `decode` returns exactly this.
pub open spec fn spec_decode(
    s: DecSt,
    probs: Seq<u16>,
    out: Seq<u8>,
    dest_len: int,
    finish: FinishMode,
    p: Props,
    src: Seq<u8>,
) -> Result<(Seq<u8>, int), Status>
    decreases dest_len - out.len(),
{
    let im = spec_pos_state(p, out.len() as int);
    let pm = probs[im];
    if out.len() >= dest_len {
        if finish == FinishMode::End {
            // The end marker — a match whose raw distance field is all
            // ones — is owed exactly here.
            match sd_decode_bit(s, pm, src) {
                None => Err(Status::InsufficientInput),
                Some(bs) => if !bs.0 {
                    Err(Status::DataError)
                } else {
                    let probs1 = probs.update(im, next_prob(pm, true));
                    match sd_tree(bs.1, probs1, pow2(p.pb as nat) as int, src, 1, 8) {
                        None => Err(Status::InsufficientInput),
                        Some(t) => match sd_direct_u32(t.1, src, 32, 0) {
                            None => Err(Status::InsufficientInput),
                            Some(d) => if d.0 != END_MARKER_DIST {
                                Err(Status::DataError)
                            } else {
                                Ok((out, d.1.2))
                            },
                        },
                    }
                },
            }
        } else {
            Ok((out, s.2))
        }
    } else {
        match sd_decode_bit(s, pm, src) {
            None => Err(Status::InsufficientInput),
            Some(bs) => {
                let probs1 = probs.update(im, next_prob(pm, bs.0));
                if !bs.0 {
                    // A literal byte, through the tree picked by position
                    // and previous byte.
                    let prev: u8 = if out.len() == 0 {
                        0
                    } else {
                        out[out.len() - 1]
                    };
                    let base = pow2(p.pb as nat) as int + 256 + 256 * spec_lit_state(
                        p,
                        out.len() as int,
                        prev,
                    );
                    match sd_tree(bs.1, probs1, base, src, 1, 8) {
                        None => Err(Status::InsufficientInput),
                        Some(t) => spec_decode(
                            t.1,
                            t.2,
                            out.push(t.0),
                            dest_len,
                            finish,
                            p,
                            src,
                        ),
                    }
                } else {
                    // A back-reference: length tree, then the raw distance.
                    match sd_tree(bs.1, probs1, pow2(p.pb as nat) as int, src, 1, 8) {
                        None => Err(Status::InsufficientInput),
                        Some(t) => match sd_direct_u32(t.1, src, 32, 0) {
                            None => Err(Status::InsufficientInput),
                            Some(d) => if d.0 == END_MARKER_DIST {
                                // The stream ends before the declared
                                // length: inconsistent with the caller.
                                Err(Status::DataError)
                            } else {
                                let len = t.0 as int + MIN_MATCH_LEN as int;
                                let dist = d.0 as int + 1;
                                if dist > out.len() || dist > p.dict_size as int {
                                    // Back-reference beyond the bytes
                                    // produced so far or the dictionary
                                    // bound: corrupt stream.
                                    Err(Status::DataError)
                                } else if len > dest_len - out.len() {
                                    Err(Status::InsufficientOutput)
                                } else {
                                    proof {
                                        lemma_apply_copy_len(out, dist, len);
                                    }
                                    spec_decode(
                                        d.1,
                                        t.2,
                                        apply_copy(out, dist, len),
                                        dest_len,
                                        finish,
                                        p,
                                        src,
                                    )
                                }
                            },
                        },
                    }
                }
            },
        }
    }
}

/// A whole stream decoded from its head: prime the coder from the first
/// five bytes, then run `spec_decode` on a fresh table.
pub open spec fn spec_decode_stream(
    src: Seq<u8>,
    probs: Seq<u16>,
    dest_len: int,
    finish: FinishMode,
    p: Props,
) -> Result<(Seq<u8>, int), Status> {
    match sd_init(src) {
        None => Err(
            if src.len() < 5 {
                Status::InsufficientInput
            } else {
                Status::DataError
            },
        ),
        Some(s0) => spec_decode(s0, probs, Seq::empty(), dest_len, finish, p, src),
    }
}

/// Where a decoder session stands.
#[derive(Clone, Copy, Debug, PartialEq, Eq, Structural)]
pub enum DecState {
    /// Configured from a property blob; ready for its decode call.
    Created,
    /// Inside a decode call.
    Decoding,
    /// The decode call returned; the session is spent.
    Finished,
}

/// One decoding session: configuration, allocator, and the adaptive
/// probability table, rebuilt fresh so it evolves exactly as the encoder's
/// did.
pub struct Decoder {
    state: DecState,
    props: Props,
    alloc: Allocator,
    probs: Vec<u16>,
}

impl Decoder {
    /// Where the session stands.
    pub closed spec fn state(self) -> DecState {
        self.state
    }

    /// The configuration decoded from the property bytes.
    pub closed spec fn config(self) -> Props {
        self.props
    }

    /// Allocation budget still available to the session.
    pub closed spec fn session_budget(self) -> int {
        self.alloc.budget()
    }

    /// Number of 16-bit entries in the probability table.
    pub closed spec fn probs_words(self) -> int {
        self.probs@.len() as int
    }

    /// The adaptive probability table.
    pub closed spec fn table(self) -> Seq<u16> {
        self.probs@
    }

    /// The session invariant: outside the decode call itself the table has
    /// its configured size and every probability is in range.
    pub closed spec fn inv(self) -> bool {
        self.state == DecState::Created || self.state == DecState::Finished ==> {
            &&& self.props.valid()
            &&& self.probs@.len() == spec_probs_len(self.props)
            &&& probs_ok(self.probs@)
        }
    }

    /// Open a session from a serialized property blob, allocating the
    /// probability table. Rejects malformed or invalid properties before
    /// touching any compressed byte.
    pub fn create(alloc: Allocator, props_bytes: &Vec<u8>) -> (r: Result<Decoder, Status>)
        ensures
            r is Ok <==> (spec_unpack_props(props_bytes@) matches Ok(q) && 2 * spec_probs_len(q)
                <= alloc.budget()),
            spec_unpack_props(props_bytes@) is Err ==> r == Err::<Decoder, Status>(
                Status::InvalidConfiguration,
            ),
            spec_unpack_props(props_bytes@) matches Ok(q) && 2 * spec_probs_len(q)
                > alloc.budget() ==> r == Err::<Decoder, Status>(Status::AllocationFailure),
            r matches Ok(d) ==> {
                &&& d.inv()
                &&& d.state() == DecState::Created
                &&& spec_unpack_props(props_bytes@) matches Ok(q) && d.config() == q
                &&& d.table() == Seq::new(spec_probs_len(d.config()) as nat, |i: int| PROB_INIT)
                &&& d.session_budget() == alloc.budget() - 2 * spec_probs_len(d.config())
            },
    {
        let props = match unpack_props(props_bytes) {
            Ok(q) => q,
            Err(e) => {
                return Err(e);
            },
        };
        let mut alloc = alloc;
        let n = probs_len(&props);
        let mut probs = match alloc.allocate_words(n) {
            Some(v) => v,
            None => {
                return Err(Status::AllocationFailure);
            },
        };
        let mut i: usize = 0;
        while i < n
            invariant
                i <= n,
                probs@.len() == n,
                forall|k: int| 0 <= k < i ==> (#[trigger] probs@[k]) == PROB_INIT,
            decreases n - i,
        {
            probs.set(i, PROB_INIT);
            i = i + 1;
        }
        proof {
            assert(probs@ =~= Seq::new(spec_probs_len(props) as nat, |i: int| PROB_INIT));
        }
        Ok(Decoder { state: DecState::Created, props, alloc, probs })
    }

    /// Decode `dest_len` bytes from `src`. Under `FinishMode::Any` the call
    /// succeeds once the declared length is produced; under
    /// `FinishMode::End` the stream must carry the end marker exactly
    /// there. The result — output, consumed count, or exact failure
    /// status — provably equals `spec_decode_stream` of the inputs.
    pub fn decode(&mut self, src: &Vec<u8>, dest_len: usize, finish: FinishMode) -> (r: Result<
        (Vec<u8>, usize),
        Status,
    >)
        requires
            old(self).inv(),
        ensures
            final(self).inv(),
            final(self).config() == old(self).config(),
            old(self).state() != DecState::Created ==> r == Err::<(Vec<u8>, usize), Status>(
                Status::InvalidConfiguration,
            ) && *final(self) == *old(self),
            old(self).state() == DecState::Created ==> final(self).state() == DecState::Finished,
            old(self).state() == DecState::Created && src@.len() < 5 ==> r == Err::<
                (Vec<u8>, usize),
                Status,
            >(Status::InsufficientInput),
            old(self).state() == DecState::Created ==> ({
                let sd = spec_decode_stream(
                    src@,
                    old(self).table(),
                    dest_len as int,
                    finish,
                    old(self).config(),
                );
                &&& (r matches Ok(pr) ==> (sd matches Ok(q) && pr.0@ == q.0 && pr.1 as int
                    == q.1))
                &&& (r matches Err(e) ==> sd == Err::<(Seq<u8>, int), Status>(e))
            }),
            r matches Ok(p) ==> {
                &&& p.0@.len() == dest_len
                &&& p.1 <= src@.len()
                &&& exists|ts: Seq<Token>|
                    expand_checked(Seq::empty(), old(self).config().dict_size as int, ts) == Some(
                        p.0@,
                    )
            },
    {
        if !(self.state == DecState::Created) {
            return Err(Status::InvalidConfiguration);
        }
        self.state = DecState::Decoding;
        let r = self.run(src, dest_len, finish);
        self.state = DecState::Finished;
        r
    }

    /// The decode loop proper.
    fn run(&mut self, src: &Vec<u8>, dest_len: usize, finish: FinishMode) -> (r: Result<
        (Vec<u8>, usize),
        Status,
    >)
        requires
            old(self).props.valid(),
            old(self).probs@.len() == spec_probs_len(old(self).props),
            probs_ok(old(self).probs@),
        ensures
            final(self).state == old(self).state,
            final(self).props == old(self).props,
            final(self).alloc == old(self).alloc,
            final(self).probs@.len() == old(self).probs@.len(),
            probs_ok(final(self).probs@),
            src@.len() < 5 ==> r == Err::<(Vec<u8>, usize), Status>(Status::InsufficientInput),
            ({
                let sd = spec_decode_stream(
                    src@,
                    old(self).probs@,
                    dest_len as int,
                    finish,
                    old(self).props,
                );
                &&& (r matches Ok(pr) ==> (sd matches Ok(q) && pr.0@ == q.0 && pr.1 as int
                    == q.1))
                &&& (r matches Err(e) ==> sd == Err::<(Seq<u8>, int), Status>(e))
            }),
            r matches Ok(p) ==> {
                &&& p.0@.len() == dest_len
                &&& p.1 <= src@.len()
                &&& exists|ts: Seq<Token>|
                    expand_checked(Seq::empty(), old(self).props.dict_size as int, ts) == Some(
                        p.0@,
                    )
            },
    {
        let ghost dl = dest_len as int;
        let ghost dict = self.props.dict_size as int;
        let mut rd = match RangeDecoder::init(src) {
            Ok(d) => d,
            Err(e) => {
                return Err(e);
            },
        };
        let mut out: Vec<u8> = Vec::new();
        let ghost mut toks: Seq<Token> = Seq::empty();
        proof {
            assert(out@ =~= Seq::<u8>::empty());
            assert(spec_decode(rd.model(), self.probs@, out@, dl, finish, self.props, src@)
                == spec_decode_stream(src@, old(self).probs@, dl, finish, old(self).props));
        }
        while out.len() < dest_len
            invariant
                self.state == old(self).state,
                self.props == old(self).props,
                self.alloc == old(self).alloc,
                self.props.valid(),
                self.probs@.len() == spec_probs_len(self.props),
                self.probs@.len() == old(self).probs@.len(),
                probs_ok(self.probs@),
                src@.len() >= 5,
                rd.wf(),
                rd.pos() <= src@.len(),
                out@.len() <= dest_len,
                dict == self.props.dict_size as int,
                dl == dest_len as int,
                expand_checked(Seq::empty(), dict, toks) == Some(out@),
                spec_decode(rd.model(), self.probs@, out@, dl, finish, self.props, src@)
                    == spec_decode_stream(src@, old(self).probs@, dl, finish, old(self).props),
            decreases dest_len - out@.len(),
        {
            let ghost pre = rd.model();
            let ghost pre_probs = self.probs@;
            let ghost pre_out = out@;
            let im = idx_match(&self.props, out.len());
            let is_match_bit = match rd.decode_bit(src, &mut self.probs, im) {
                Ok(b) => b,
                Err(e) => {
                    return Err(e);
                },
            };
            if !is_match_bit {
                let prev: u8 = if out.len() == 0 {
                    0
                } else {
                    out[out.len() - 1]
                };
                let base = lit_base(&self.props, out.len(), prev);
                let b = match rd.decode_tree_byte(src, &mut self.probs, base) {
                    Ok(v) => v,
                    Err(e) => {
                        proof {
                            assert(spec_decode(pre, pre_probs, pre_out, dl, finish, self.props,
                            src@) == Err::<(Seq<u8>, int), Status>(e));
                        }
                        return Err(e);
                    },
                };
                proof {
                    lemma_expand_checked_push(Seq::empty(), dict, toks, Token::Literal(b));
                    toks = toks.push(Token::Literal(b));
                }
                out.push(b);
                proof {
                    assert(spec_decode(pre, pre_probs, pre_out, dl, finish, self.props, src@)
                        == spec_decode(rd.model(), self.probs@, out@, dl, finish, self.props,
                    src@));
                }
            } else {
                let lb = len_base(&self.props);
                let lv = match rd.decode_tree_byte(src, &mut self.probs, lb) {
                    Ok(v) => v,
                    Err(e) => {
                        proof {
                            assert(spec_decode(pre, pre_probs, pre_out, dl, finish, self.props,
                            src@) == Err::<(Seq<u8>, int), Status>(e));
                        }
                        return Err(e);
                    },
                };
                let dm1 = match rd.decode_direct_u32(src) {
                    Ok(v) => v,
                    Err(e) => {
                        proof {
                            assert(spec_decode(pre, pre_probs, pre_out, dl, finish, self.props,
                            src@) == Err::<(Seq<u8>, int), Status>(e));
                        }
                        return Err(e);
                    },
                };
                if dm1 == END_MARKER_DIST {
                    // The stream ends before the declared length: it is
                    // inconsistent with what the caller announced.
                    proof {
                        assert(spec_decode(pre, pre_probs, pre_out, dl, finish, self.props, src@)
                            == Err::<(Seq<u8>, int), Status>(Status::DataError));
                    }
                    return Err(Status::DataError);
                }
                let len: usize = lv as usize + MIN_MATCH_LEN;
                let dist: usize = dm1 as usize + 1;
                if dist > out.len() || (dist as u64) > (self.props.dict_size as u64) {
                    // Back-reference beyond the window: corrupt stream.
                    proof {
                        assert(spec_decode(pre, pre_probs, pre_out, dl, finish, self.props, src@)
                            == Err::<(Seq<u8>, int), Status>(Status::DataError));
                    }
                    return Err(Status::DataError);
                }
                if len > dest_len - out.len() {
                    proof {
                        assert(spec_decode(pre, pre_probs, pre_out, dl, finish, self.props, src@)
                            == Err::<(Seq<u8>, int), Status>(Status::InsufficientOutput));
                    }
                    return Err(Status::InsufficientOutput);
                }
                let ghost t = Token::Match { dist: (dm1 + 1) as u32, len: len as u32 };
                let ghost out0 = out@;
                proof {
                    lemma_expand_checked_push(Seq::empty(), dict, toks, t);
                }
                let mut j: usize = 0;
                while j < len
                    invariant
                        j <= len,
                        1 <= dist <= out0.len(),
                        out@.len() == out0.len() + j,
                        out0.len() + len <= dest_len,
                        apply_copy(out0, dist as int, len as int) == apply_copy(
                            out@,
                            dist as int,
                            (len - j) as int,
                        ),
                    decreases len - j,
                {
                    let ghost cur = out@;
                    let b = out[out.len() - dist];
                    out.push(b);
                    proof {
                        assert(apply_copy(cur, dist as int, (len - j) as int) == apply_copy(
                            cur.push(cur[cur.len() - dist]),
                            dist as int,
                            (len - j) as int - 1,
                        ));
                    }
                    j = j + 1;
                }
                proof {
                    assert(apply_copy(out@, dist as int, 0) == out@);
                    toks = toks.push(t);
                    assert(out@ == apply_copy(pre_out, dist as int, len as int));
                    assert(spec_decode(pre, pre_probs, pre_out, dl, finish, self.props, src@)
                        == spec_decode(rd.model(), self.probs@, out@, dl, finish, self.props,
                    src@));
                }
            }
        }
        let ghost pre = rd.model();
        let ghost pre_probs = self.probs@;
        let ghost pre_out = out@;
        if finish == FinishMode::End {
            // The end marker is owed exactly here.
            let im = idx_match(&self.props, out.len());
            let is_m = match rd.decode_bit(src, &mut self.probs, im) {
                Ok(b) => b,
                Err(e) => {
                    proof {
                        assert(spec_decode(pre, pre_probs, pre_out, dl, finish, self.props, src@)
                            == Err::<(Seq<u8>, int), Status>(e));
                    }
                    return Err(e);
                },
            };
            if !is_m {
                proof {
                    assert(spec_decode(pre, pre_probs, pre_out, dl, finish, self.props, src@)
                        == Err::<(Seq<u8>, int), Status>(Status::DataError));
                }
                return Err(Status::DataError);
            }
            let lb = len_base(&self.props);
            let _lv = match rd.decode_tree_byte(src, &mut self.probs, lb) {
                Ok(v) => v,
                Err(e) => {
                    proof {
                        assert(spec_decode(pre, pre_probs, pre_out, dl, finish, self.props, src@)
                            == Err::<(Seq<u8>, int), Status>(e));
                    }
                    return Err(e);
                },
            };
            let dm1 = match rd.decode_direct_u32(src) {
                Ok(v) => v,
                Err(e) => {
                    proof {
                        assert(spec_decode(pre, pre_probs, pre_out, dl, finish, self.props, src@)
                            == Err::<(Seq<u8>, int), Status>(e));
                    }
                    return Err(e);
                },
            };
            if dm1 != END_MARKER_DIST {
                proof {
                    assert(spec_decode(pre, pre_probs, pre_out, dl, finish, self.props, src@)
                        == Err::<(Seq<u8>, int), Status>(Status::DataError));
                }
                return Err(Status::DataError);
            }
        }
        let used: usize = rd.position();
        proof {
            assert(expand_checked(Seq::empty(), dict, toks) == Some(out@));
            assert(spec_decode(pre, pre_probs, pre_out, dl, finish, self.props, src@)
                == Ok::<(Seq<u8>, int), Status>((out@, used as int)));
        }
        Ok((out, used))
    }

    /// Close the session, releasing the probability table back to the
    /// allocator, and hand the allocator back: exactly the bytes the table
    /// was charged for come back.
    pub fn destroy(self) -> (r: Allocator)
        ensures
            r.budget() == sat_budget(self.session_budget() + 2 * self.probs_words()),
            r.budget() >= self.session_budget(),
            self.inv() && self.state() != DecState::Decoding ==> self.probs_words()
                == spec_probs_len(self.config()),
    {
        let Decoder { state: _, props: _, mut alloc, probs } = self;
        alloc.free_words(probs);
        alloc
    }
}

/// One-shot decode: configure a session from the serialized properties and
/// reconstruct exactly `dest_len` bytes from `src`, reporting how many
/// compressed bytes were consumed.
pub fn lzma_decode(
    dest_len: usize,
    src: &Vec<u8>,
    props_bytes: &Vec<u8>,
    finish: FinishMode,
    alloc: Allocator,
) -> (r: Result<(Vec<u8>, usize), Status>)
    ensures
        spec_unpack_props(props_bytes@) is Err ==> r == Err::<(Vec<u8>, usize), Status>(
            Status::InvalidConfiguration,
        ),
        (spec_unpack_props(props_bytes@) matches Ok(q) && 2 * spec_probs_len(q) <= alloc.budget()
            && src@.len() < 5) ==> r == Err::<(Vec<u8>, usize), Status>(
            Status::InsufficientInput,
        ),
        ({
            let up = spec_unpack_props(props_bytes@);
            let q = up->Ok_0;
            let sd = spec_decode_stream(
                src@,
                Seq::new(spec_probs_len(q) as nat, |i: int| PROB_INIT),
                dest_len as int,
                finish,
                q,
            );
            up is Ok && 2 * spec_probs_len(q) <= alloc.budget() ==> {
                &&& (r matches Ok(pr) ==> (sd matches Ok(x) && pr.0@ == x.0 && pr.1 as int
                    == x.1))
                &&& (r matches Err(e) ==> sd == Err::<(Seq<u8>, int), Status>(e))
            }
        }),
        r matches Ok(p) ==> {
            &&& p.0@.len() == dest_len
            &&& p.1 <= src@.len()
            &&& spec_unpack_props(props_bytes@) matches Ok(q) && (exists|ts: Seq<Token>|
                expand_checked(Seq::empty(), q.dict_size as int, ts) == Some(p.0@))
        },
{
    let mut dec = match Decoder::create(alloc, props_bytes) {
        Ok(d) => d,
        Err(e) => {
            return Err(e);
        },
    };
    let r = dec.decode(src, dest_len, finish);
    let _alloc = dec.destroy();
    r
}

} // verus!
