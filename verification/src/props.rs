//! Configuration properties and their fixed 5-byte serialization.
//!
//! The first serialized byte packs the three context-bit knobs as
//! `(pb * 5 + lp) * 9 + lc`; the next four bytes hold the dictionary size in
//! little-endian order. Only the decoder-relevant knobs are serialized; the
//! search-quality knobs stay on the encoding side.

use vstd::prelude::*;
use crate::status::Status;

verus! {

/// Number of bytes in the serialized property blob.
pub const PROPS_SIZE: usize = 5;

/// Smallest dictionary size the engine accepts.
pub const MIN_DICT_SIZE: u32 = 4096;

/// Immutable configuration snapshot for one encode or decode session.
#[derive(Clone, Copy, Debug, PartialEq, Eq, Structural)]
pub struct Props {
    /// Literal context bits: how many high bits of the previous byte index
    /// the literal probability contexts.
    pub lc: u8,
    /// Literal position bits: how many low position bits index the literal
    /// probability contexts.
    pub lp: u8,
    /// Position bits: how many low position bits index the match-flag
    /// probability contexts.
    pub pb: u8,
    /// Upper bound, in bytes, on back-reference distances.
    pub dict_size: u32,
    /// Search-quality knob (encoder only): 0 selects the fast shallow
    /// search, any other value the deeper search.
    pub algorithm: u32,
    /// Search-quality knob (encoder only): stop searching once a match of
    /// this length is found; 0 means never stop early.
    pub fast_bytes: u32,
    /// Search-quality knob (encoder only): bound on how many older
    /// occurrences the match finder visits per position; 0 selects a default.
    pub match_finder_depth: u32,
    /// Number of worker threads the caller authorizes; this implementation
    /// always uses the single-threaded baseline path.
    pub num_threads: u32,
}

impl Props {
    /// The invariants every configuration must satisfy.
    pub open spec fn valid(self) -> bool {
        &&& self.lc as int + self.lp as int <= 4
        &&& self.pb <= 4
        &&& self.dict_size >= MIN_DICT_SIZE
    }

    /// Runtime check of the configuration invariants.
    pub fn is_valid(&self) -> (r: bool)
        ensures
            r == self.valid(),
    {
        self.lc as u32 + self.lp as u32 <= 4 && self.pb <= 4 && self.dict_size >= MIN_DICT_SIZE
    }
}

impl Default for Props {
    /// The default configuration: 3 literal context bits, no literal
    /// position bits, 2 position bits, a 64 KiB dictionary, and moderate
    /// search effort.
    fn default() -> (r: Self)
        ensures
            r.valid(),
            r.lc == 3 && r.lp == 0 && r.pb == 2,
            r.dict_size == 65536,
            r.algorithm == 1,
            r.fast_bytes == 32,
            r.match_finder_depth == 16,
            r.num_threads == 1,
    {
        Props {
            lc: 3,
            lp: 0,
            pb: 2,
            dict_size: 65536,
            algorithm: 1,
            fast_bytes: 32,
            match_finder_depth: 16,
            num_threads: 1,
        }
    }
}

/// The packed first property byte, as a mathematical integer.
pub open spec fn spec_pack_byte(p: Props) -> int {
    (p.pb as int * 5 + p.lp as int) * 9 + p.lc as int
}

/// The full 5-byte property serialization.
pub open spec fn spec_pack_props(p: Props) -> Seq<u8> {
    seq![
        spec_pack_byte(p) as u8,
        (p.dict_size & 0xff) as u8,
        ((p.dict_size >> 8) & 0xff) as u8,
        ((p.dict_size >> 16) & 0xff) as u8,
        ((p.dict_size >> 24) & 0xff) as u8,
    ]
}

/// What deserialization yields for a given byte sequence: the decoded
/// configuration (encoder-only knobs at their defaults), or the exact error.
pub open spec fn spec_unpack_props(s: Seq<u8>) -> Result<Props, Status> {
    if s.len() < 5 {
        Err(Status::InvalidConfiguration)
    } else {
        let lc = s[0] as int % 9;
        let lp = (s[0] as int / 9) % 5;
        let pb = s[0] as int / 45;
        let ds = s[1] as int + s[2] as int * 0x100 + s[3] as int * 0x10000 + s[4] as int
            * 0x1000000;
        if lc + lp > 4 || pb > 4 || ds < MIN_DICT_SIZE {
            Err(Status::InvalidConfiguration)
        } else {
            Ok(
                Props {
                    lc: lc as u8,
                    lp: lp as u8,
                    pb: pb as u8,
                    dict_size: ds as u32,
                    algorithm: 1,
                    fast_bytes: 32,
                    match_finder_depth: 16,
                    num_threads: 1,
                },
            )
        }
    }
}

/// Serialize a valid configuration into its 5-byte form.
pub fn pack_props(p: &Props) -> (r: Vec<u8>)
    requires
        p.valid(),
    ensures
        r@ == spec_pack_props(*p),
        r@.len() == PROPS_SIZE,
{
    let b0: u32 = (p.pb as u32 * 5 + p.lp as u32) * 9 + p.lc as u32;
    let mut r: Vec<u8> = Vec::new();
    r.push(b0 as u8);
    r.push((p.dict_size & 0xff) as u8);
    r.push(((p.dict_size >> 8) & 0xff) as u8);
    r.push(((p.dict_size >> 16) & 0xff) as u8);
    r.push(((p.dict_size >> 24) & 0xff) as u8);
    proof {
        let ds = p.dict_size;
        assert(((ds >> 8) & 0xff) < 0x100 && ((ds >> 16) & 0xff) < 0x100 && ((ds >> 24) & 0xff)
            < 0x100) by (bit_vector);
        assert(r@ =~= spec_pack_props(*p));
    }
    r
}

/// Deserialize a property blob, rejecting short buffers and any decoded
/// configuration that violates the invariants.
pub fn unpack_props(s: &Vec<u8>) -> (r: Result<Props, Status>)
    ensures
        r == spec_unpack_props(s@),
        r matches Ok(p) ==> p.valid(),
{
    if s.len() < 5 {
        return Err(Status::InvalidConfiguration);
    }
    let b0: u32 = s[0] as u32;
    let lc: u32 = b0 % 9;
    let lp: u32 = (b0 / 9) % 5;
    let pb: u32 = b0 / 45;
    let ds: u32 = s[1] as u32 + s[2] as u32 * 0x100 + s[3] as u32 * 0x10000 + s[4] as u32
        * 0x1000000;
    if lc + lp > 4 || pb > 4 || ds < MIN_DICT_SIZE {
        return Err(Status::InvalidConfiguration);
    }
    Ok(
        Props {
            lc: lc as u8,
            lp: lp as u8,
            pb: pb as u8,
            dict_size: ds,
            algorithm: 1,
            fast_bytes: 32,
            match_finder_depth: 16,
            num_threads: 1,
        },
    )
}

/// Property packing round-trip: deserializing a serialized valid
/// configuration recovers exactly the decoder-relevant knobs
/// `lc`, `lp`, `pb` and the dictionary size.
pub proof fn lemma_props_pack_round_trip(p: Props)
    requires
        p.valid(),
    ensures
        spec_unpack_props(spec_pack_props(p)) matches Ok(q) && q.lc == p.lc && q.lp == p.lp
            && q.pb == p.pb && q.dict_size == p.dict_size,
{
    let s = spec_pack_props(p);
    let b0 = spec_pack_byte(p);
    assert(0 <= b0 < 256);
    assert(s[0] == b0 as u8);
    assert(s[0] as int == b0);
    let a = p.pb as int * 5 + p.lp as int;
    assert(b0 % 9 == p.lc as int && b0 / 9 == a) by (nonlinear_arith)
        requires
            b0 == a * 9 + p.lc as int,
            0 <= p.lc as int,
            (p.lc as int) < 9,
            0 <= a,
    ;
    assert(a % 5 == p.lp as int) by (nonlinear_arith)
        requires
            a == p.pb as int * 5 + p.lp as int,
            0 <= p.lp as int,
            (p.lp as int) < 5,
            0 <= p.pb as int,
    ;
    assert(b0 / 45 == p.pb as int) by (nonlinear_arith)
        requires
            b0 == p.pb as int * 45 + (p.lp as int * 9 + p.lc as int),
            0 <= p.lp as int * 9 + p.lc as int,
            (p.lp as int * 9 + p.lc as int) < 45,
            0 <= p.pb as int,
    ;
    let ds = p.dict_size;
    assert((ds & 0xff) < 0x100 && ((ds >> 8) & 0xff) < 0x100 && ((ds >> 16) & 0xff) < 0x100 && ((ds
        >> 24) & 0xff) < 0x100) by (bit_vector);
    assert((ds & 0xff) + ((ds >> 8) & 0xff) * 0x100 + ((ds >> 16) & 0xff) * 0x10000 + ((ds >> 24)
        & 0xff) * 0x1000000 == ds) by (bit_vector);
}

} // verus!
