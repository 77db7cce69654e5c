//! The match finder: a hash table over two-byte prefixes, chained to older
//! occurrences, that the encoder queries for the longest previous
//! occurrence of the upcoming bytes. Candidates are visited nearest-first,
//! so on equal lengths the nearest (cheapest to code) distance wins.
//!
//! Every candidate the table yields is re-checked byte-by-byte against the
//! input, so the reported match facts hold whatever the table contains.

use vstd::prelude::*;
use vstd::pervasive::VecAdditionalExecFns;
use crate::allocator::{sat_budget, Allocator};
use crate::status::Status;
use crate::tokens::MIN_MATCH_LEN;

verus! {

/// Number of hash-table buckets: one per two-byte prefix.
pub const HASH_SIZE: usize = 65536;

/// Chain length searched when the configuration leaves the depth at 0.
pub const DEFAULT_DEPTH: u32 = 16;

/// The bucket of a two-byte prefix: the exact 16-bit value it forms.
pub open spec fn spec_hash2(b0: u8, b1: u8) -> int {
    b0 + 256 * b1
}

/// Length of the common prefix of the bytes at `c` and at `p`, capped.
pub open spec fn spec_match_len(data: Seq<u8>, c: int, p: int, cap: int) -> int
    decreases cap,
{
    if cap <= 0 {
        0
    } else if data[c] == data[p] {
        1 + spec_match_len(data, c + 1, p + 1, cap - 1)
    } else {
        0
    }
}

/// The chain walk the search performs: visit up to `tries` candidates,
/// nearest first, keeping the first strictly longest in-window match, and
/// stopping early at the fast-bytes threshold or on an unusable entry.
pub open spec fn spec_find_walk(
    chain: Seq<u32>,
    data: Seq<u8>,
    pos: int,
    dict: int,
    fb: int,
    max_len: int,
    cand: u32,
    tries: int,
    best_len: int,
    best_dist: int,
) -> (int, int)
    decreases tries,
{
    if cand == 0 || tries <= 0 {
        (best_len, best_dist)
    } else {
        let c = cand as int - 1;
        if c >= pos {
            (best_len, best_dist)
        } else {
            let dist = pos - c;
            if dist <= dict {
                let l = spec_match_len(data, c, pos, max_len);
                let better = l >= MIN_MATCH_LEN as int && l > best_len;
                let bl = if better {
                    l
                } else {
                    best_len
                };
                let bd = if better {
                    dist
                } else {
                    best_dist
                };
                if fb > 0 && bl >= fb {
                    (bl, bd)
                } else {
                    spec_find_walk(chain, data, pos, dict, fb, max_len, chain[c], tries - 1, bl, bd)
                }
            } else {
                spec_find_walk(
                    chain,
                    data,
                    pos,
                    dict,
                    fb,
                    max_len,
                    chain[c],
                    tries - 1,
                    best_len,
                    best_dist,
                )
            }
        }
    }
}

/// What a whole search returns, as a function of the table state.
pub open spec fn spec_find(
    head: Seq<u32>,
    chain: Seq<u32>,
    data: Seq<u8>,
    pos: int,
    dict: int,
    depth: u32,
    fb: int,
    max_len: int,
) -> (int, int) {
    if max_len < MIN_MATCH_LEN as int || pos + 1 >= data.len() {
        (0, 0)
    } else {
        let tries = if depth == 0 {
            DEFAULT_DEPTH as int
        } else {
            depth as int
        };
        spec_find_walk(
            chain,
            data,
            pos,
            dict,
            fb,
            max_len,
            head[spec_hash2(data[pos], data[pos + 1])],
            tries,
            0,
            0,
        )
    }
}

/// Hash table (`head`) plus per-position chain links. Entries store
/// `position + 1`, with 0 meaning "no entry".
pub struct MatchFinder {
    head: Vec<u32>,
    chain: Vec<u32>,
}

impl MatchFinder {
    /// How many input positions have been inserted so far.
    pub closed spec fn positions(self) -> int {
        self.chain@.len() as int
    }

    /// Number of 32-bit entries the hash table holds (and the budget it
    /// was charged for).
    pub closed spec fn table_len(self) -> int {
        self.head@.len() as int
    }

    /// The hash table as the spec functions see it.
    pub closed spec fn heads(self) -> Seq<u32> {
        self.head@
    }

    /// The chain links as the spec functions see it.
    pub closed spec fn chains(self) -> Seq<u32> {
        self.chain@
    }

    /// The hash table has its full size.
    pub closed spec fn wf(self) -> bool {
        self.head@.len() == HASH_SIZE
    }

    /// A well-formed finder's hash table has exactly its full size.
    pub proof fn lemma_wf_table_len(self)
        requires
            self.wf(),
        ensures
            self.table_len() == HASH_SIZE,
    {
    }

    /// A placeholder with no tables, for a session that is not yet
    /// configured.
    pub fn empty() -> (r: MatchFinder)
        ensures
            r.positions() == 0,
            r.table_len() == 0,
    {
        MatchFinder { head: Vec::new(), chain: Vec::new() }
    }

    /// Allocate the hash table through the session's allocator; the
    /// per-position chain grows as positions are inserted.
    pub fn create(alloc: &mut Allocator) -> (r: Result<MatchFinder, Status>)
        ensures
            4 * HASH_SIZE <= old(alloc).budget() ==> (r matches Ok(m) && m.wf() && m.positions()
                == 0 && final(alloc).budget() == old(alloc).budget() - 4 * HASH_SIZE),
            4 * HASH_SIZE > old(alloc).budget() ==> (r matches Err(e) && e
                == Status::AllocationFailure && *final(alloc) == *old(alloc)),
    {
        match alloc.allocate_index(HASH_SIZE) {
            Some(head) => Ok(MatchFinder { head, chain: Vec::new() }),
            None => Err(Status::AllocationFailure),
        }
    }

    /// Release the hash table back to the allocator: exactly the bytes the
    /// table was charged for are credited back. The chain vector was never
    /// drawn from the budget, so it is simply dropped.
    pub fn destroy(self, alloc: &mut Allocator)
        ensures
            final(alloc).budget() == sat_budget(old(alloc).budget() + 4 * self.table_len()),
            final(alloc).budget() >= old(alloc).budget(),
    {
        alloc.free_index(self.head);
    }

    /// Index the two-byte prefix at `pos` so later positions can find it.
    pub fn insert(&mut self, data: &Vec<u8>, pos: usize)
        requires
            old(self).wf(),
            old(self).positions() == pos as int,
            pos < data@.len(),
            pos < 0xffff_ffff,
        ensures
            final(self).wf(),
            final(self).positions() == pos as int + 1,
            pos as int + 1 < data@.len() ==> {
                let h = spec_hash2(data@[pos as int], data@[pos as int + 1]);
                final(self).heads() == old(self).heads().update(h, (pos + 1) as u32)
                    && final(self).chains() == old(self).chains().push(old(self).heads()[h])
            },
            pos as int + 1 >= data@.len() ==> final(self).heads() == old(self).heads()
                && final(self).chains() == old(self).chains().push(0u32),
    {
        if pos + 1 < data.len() {
            let h: usize = hash2(data[pos], data[pos + 1]);
            let prev: u32 = self.head[h];
            self.chain.push(prev);
            self.head.set(h, (pos as u32) + 1);
        } else {
            self.chain.push(0);
        }
    }

    /// Search for the longest previous occurrence of the bytes at `pos`,
    /// visiting at most `depth` chained candidates within `dict_size` and
    /// stopping early once a match of `fast_bytes` is found. Returns
    /// `(length, distance)`; a length below the minimum means "emit a
    /// literal". Any reported match is re-verified against the data.
    pub fn find(
        &self,
        data: &Vec<u8>,
        pos: usize,
        dict_size: u32,
        depth: u32,
        fast_bytes: u32,
        max_len: usize,
    ) -> (r: (usize, usize))
        requires
            self.wf(),
            self.positions() == pos as int,
            pos < data@.len(),
            max_len <= data@.len() - pos,
        ensures
            (r.0 as int, r.1 as int) == spec_find(
                self.heads(),
                self.chains(),
                data@,
                pos as int,
                dict_size as int,
                depth,
                fast_bytes as int,
                max_len as int,
            ),
            r.0 >= MIN_MATCH_LEN ==> {
                &&& 1 <= r.1 <= pos
                &&& r.1 <= dict_size
                &&& r.0 <= max_len
                &&& forall|k: int| 0 <= k < r.0 ==> data@[pos - r.1 + k] == #[trigger] data@[pos
                    + k]
            },
    {
        let ghost full = spec_find(
            self.heads(),
            self.chains(),
            data@,
            pos as int,
            dict_size as int,
            depth,
            fast_bytes as int,
            max_len as int,
        );
        let mut best_len: usize = 0;
        let mut best_dist: usize = 0;
        let n: usize = data.len();
        if max_len < MIN_MATCH_LEN || pos + 1 >= n {
            return (0, 0);
        }
        let h: usize = hash2(data[pos], data[pos + 1]);
        let mut cand: u32 = self.head[h];
        let mut tries: u32 = if depth == 0 {
            DEFAULT_DEPTH
        } else {
            depth
        };
        while cand != 0 && tries > 0
            invariant
                self.wf(),
                self.positions() == pos as int,
                pos < data@.len(),
                max_len <= data@.len() - pos,
                full == spec_find(
                    self.heads(),
                    self.chains(),
                    data@,
                    pos as int,
                    dict_size as int,
                    depth,
                    fast_bytes as int,
                    max_len as int,
                ),
                full == spec_find_walk(
                    self.chains(),
                    data@,
                    pos as int,
                    dict_size as int,
                    fast_bytes as int,
                    max_len as int,
                    cand,
                    tries as int,
                    best_len as int,
                    best_dist as int,
                ),
                best_len >= MIN_MATCH_LEN ==> {
                    &&& 1 <= best_dist <= pos
                    &&& best_dist <= dict_size
                    &&& best_len <= max_len
                    &&& forall|k: int| 0 <= k < best_len ==> data@[pos - best_dist + k]
                        == #[trigger] data@[pos + k]
                },
                best_len < MIN_MATCH_LEN ==> best_len == 0 && best_dist == 0,
            decreases tries,
        {
            let ghost cand0 = cand;
            let ghost tries0 = tries as int;
            let ghost bl0 = best_len as int;
            let ghost bd0 = best_dist as int;
            let c_plus: u32 = cand;
            let c: usize = (c_plus - 1) as usize;
            if c >= pos {
                // A stale or foreign entry; nothing usable on this chain.
                proof {
                    assert(full == (best_len as int, best_dist as int));
                }
                return (best_len, best_dist);
            }
            let dist: usize = pos - c;
            if dist as u64 <= dict_size as u64 {
                let l: usize = match_len(data, c, pos, max_len);
                if l >= MIN_MATCH_LEN && l > best_len {
                    best_len = l;
                    best_dist = dist;
                }
                if fast_bytes > 0 && best_len as u64 >= fast_bytes as u64 {
                    proof {
                        assert(spec_find_walk(self.chains(), data@, pos as int, dict_size as int,
                        fast_bytes as int, max_len as int, cand0, tries0, bl0, bd0) == (
                        best_len as int, best_dist as int));
                    }
                    return (best_len, best_dist);
                }
            }
            cand = self.chain[c];
            tries = tries - 1;
            proof {
                assert(full == spec_find_walk(self.chains(), data@, pos as int, dict_size as int,
                fast_bytes as int, max_len as int, cand, tries as int, best_len as int,
                best_dist as int)) by {
                    assert(spec_find_walk(self.chains(), data@, pos as int, dict_size as int,
                    fast_bytes as int, max_len as int, cand0, tries0, bl0, bd0)
                        == spec_find_walk(self.chains(), data@, pos as int, dict_size as int,
                    fast_bytes as int, max_len as int, cand, tries as int, best_len as int,
                    best_dist as int));
                }
            }
        }
        (best_len, best_dist)
    }
}

/// Bucket of a two-byte prefix: the exact 16-bit value it forms.
fn hash2(b0: u8, b1: u8) -> (r: usize)
    ensures
        r < HASH_SIZE,
        r as int == spec_hash2(b0, b1),
{
    (b0 as usize) + 256 * (b1 as usize)
}

/// Length of the common prefix of the bytes at `c` and at `p`, capped at
/// `cap`.
fn match_len(data: &Vec<u8>, c: usize, p: usize, cap: usize) -> (l: usize)
    requires
        c < p,
        p + cap <= data@.len(),
    ensures
        l <= cap,
        l as int == spec_match_len(data@, c as int, p as int, cap as int),
        forall|k: int| 0 <= k < l ==> data@[c + k] == #[trigger] data@[p + k],
{
    let n: usize = data.len();
    let mut l: usize = 0;
    while l < cap && data[c + l] == data[p + l]
        invariant
            c < p,
            p + cap <= n,
            n == data@.len(),
            l <= cap,
            spec_match_len(data@, c as int, p as int, cap as int) == l + spec_match_len(
                data@,
                c + l,
                p + l,
                cap - l,
            ),
            forall|k: int| 0 <= k < l ==> data@[c + k] == #[trigger] data@[p + k],
        decreases cap - l,
    {
        l = l + 1;
    }
    l
}

} // verus!
