//! The symbol layer shared by encoder and decoder: literal bytes and
//! back-reference matches, together with the mathematical meaning of a token
//! sequence (the byte sequence it expands to) and its well-formedness
//! against the dictionary bound.

use vstd::prelude::*;

verus! {

/// Shortest back-reference the engine emits.
pub const MIN_MATCH_LEN: usize = 2;

/// Longest back-reference the engine emits (the length field is coded in
/// eight bits above the minimum).
pub const MAX_MATCH_LEN: usize = 257;

/// One coded symbol: a literal byte, or a back-reference of `len` bytes
/// starting `dist` bytes before the current end of the output.
#[derive(Clone, Copy, Debug, PartialEq, Eq, Structural)]
pub enum Token {
    /// A byte emitted as-is.
    Literal(u8),
    /// A copy of `len` bytes from `dist` bytes back; overlapping copies
    /// repeat the window byte-by-byte.
    Match { dist: u32, len: u32 },
}

/// Whether one token may be applied when `n` bytes have been produced so
/// far under dictionary bound `dict`: a match must reach back only into
/// those `n` bytes, no farther than `dict`, with a length in the coded
/// range.
pub open spec fn token_ok(n: int, dict: int, t: Token) -> bool {
    match t {
        Token::Literal(_) => true,
        Token::Match { dist, len } => {
            &&& 1 <= dist as int
            &&& dist as int <= n
            &&& dist as int <= dict
            &&& MIN_MATCH_LEN as int <= len as int
            &&& len as int <= MAX_MATCH_LEN as int
        },
    }
}

/// Byte-at-a-time back-reference copy: append `len` bytes, each read `dist`
/// positions back from the current end, so overlapping copies repeat.
pub open spec fn apply_copy(acc: Seq<u8>, dist: int, len: int) -> Seq<u8>
    decreases len,
{
    if len <= 0 {
        acc
    } else {
        apply_copy(acc.push(acc[acc.len() - dist]), dist, len - 1)
    }
}

/// One token applied to the output produced so far.
pub open spec fn apply_token(acc: Seq<u8>, t: Token) -> Seq<u8> {
    match t {
        Token::Literal(b) => acc.push(b),
        Token::Match { dist, len } => apply_copy(acc, dist as int, len as int),
    }
}

/// Expansion of a token sequence on top of output `acc`, checking each
/// token's well-formedness as the window grows: `Some` of the full output,
/// or `None` as soon as a token is out of bounds.
pub open spec fn expand_checked(acc: Seq<u8>, dict: int, ts: Seq<Token>) -> Option<Seq<u8>>
    decreases ts.len(),
{
    if ts.len() == 0 {
        Some(acc)
    } else if token_ok(acc.len() as int, dict, ts[0]) {
        expand_checked(apply_token(acc, ts[0]), dict, ts.subrange(1, ts.len() as int))
    } else {
        None
    }
}

/// Appending one token to a sequence extends its checked expansion by that
/// token's effect.
pub proof fn lemma_expand_checked_push(acc: Seq<u8>, dict: int, ts: Seq<Token>, t: Token)
    ensures
        expand_checked(acc, dict, ts.push(t)) == (match expand_checked(acc, dict, ts) {
            Some(w) => if token_ok(w.len() as int, dict, t) {
                Some(apply_token(w, t))
            } else {
                None
            },
            None => None,
        }),
    decreases ts.len(),
{
    if ts.len() == 0 {
        let one = ts.push(t);
        assert(one[0] == t);
        assert(one.subrange(1, 1) =~= Seq::<Token>::empty());
        if token_ok(acc.len() as int, dict, t) {
            assert(expand_checked(acc, dict, one) == expand_checked(apply_token(acc, t), dict,
            one.subrange(1, 1)));
        }
    } else {
        let rest = ts.subrange(1, ts.len() as int);
        assert(ts.push(t)[0] == ts[0]);
        assert(ts.push(t).subrange(1, ts.len() as int + 1) =~= rest.push(t));
        if token_ok(acc.len() as int, dict, ts[0]) {
            lemma_expand_checked_push(apply_token(acc, ts[0]), dict, rest, t);
        }
    }
}

/// A copy grows the output by exactly the copy length.
pub proof fn lemma_apply_copy_len(acc: Seq<u8>, dist: int, len: int)
    requires
        0 <= len,
    ensures
        apply_copy(acc, dist, len).len() == acc.len() + len,
    decreases len,
{
    if len > 0 {
        lemma_apply_copy_len(acc.push(acc[acc.len() - dist]), dist, len - 1);
    }
}

/// When the `len` bytes at `p` repeat the bytes `dist` back, copying from
/// the expanded prefix reproduces exactly the next `len` bytes of `data`.
pub proof fn lemma_apply_copy_take(data: Seq<u8>, p: int, dist: int, len: int)
    requires
        1 <= dist <= p,
        0 <= len,
        p + len <= data.len(),
        forall|k: int| 0 <= k < len ==> data[p - dist + k] == #[trigger] data[p + k],
    ensures
        apply_copy(data.take(p), dist, len) == data.take(p + len),
    decreases len,
{
    if len <= 0 {
        assert(data.take(p) =~= data.take(p + len));
    } else {
        let acc = data.take(p);
        assert(acc[p - dist] == data[p - dist]);
        assert(data[p - dist] == data[p]) by {
            assert(data[p - dist + 0] == data[p + 0]);
        }
        assert(acc.push(data[p]) =~= data.take(p + 1));
        assert forall|k: int| 0 <= k < len - 1 implies data[(p + 1) - dist + k] == #[trigger] data[
        (p + 1) + k] by {
            assert(data[p - dist + (k + 1)] == data[p + (k + 1)]);
        }
        lemma_apply_copy_take(data, p + 1, dist, len - 1);
    }
}

} // verus!
