//! The vocabulary: an immutable mapping from byte sequences to ranks.
//!
//! A rank is an unsigned integer that doubles as the token identifier
//! and as the merge priority (lower rank merges earlier). The value
//! `NO_RANK` is a sentinel meaning "no rank": it never names a token.

use vstd::prelude::*;
use std::collections::HashSet;

verus! {

broadcast use vstd::std_specs::hash::group_hash_axioms;

/// Sentinel rank: marks a pair that cannot merge. Never a token's rank.
pub const NO_RANK: u32 = 0xffff_ffff;

/// Why a list of vocabulary entries was rejected at construction.
#[derive(Clone, Copy, Debug, PartialEq, Eq, Structural)]
pub enum VocabError {
    /// Some byte value has no single-byte entry.
    Incomplete,
    /// An entry's byte sequence is empty.
    EmptyToken,
    /// An entry uses the sentinel value as its rank.
    ReservedRank,
    /// Two entries share one rank.
    DuplicateRank,
}

/// The rank of `key` in the entry list `es`: the first entry whose byte
/// sequence equals `key` decides, as an exact-match lookup would.
pub open spec fn find_rank(es: Seq<(Seq<u8>, u32)>, key: Seq<u8>) -> Option<u32>
    decreases es.len(),
{
    if es.len() == 0 {
        None
    } else if es[0].0 == key {
        Some(es[0].1)
    } else {
        find_rank(es.subrange(1, es.len() as int), key)
    }
}

/// The byte sequence of the first entry carrying rank `r`.
pub open spec fn find_bytes(es: Seq<(Seq<u8>, u32)>, r: u32) -> Option<Seq<u8>>
    decreases es.len(),
{
    if es.len() == 0 {
        None
    } else if es[0].1 == r {
        Some(es[0].0)
    } else {
        find_bytes(es.subrange(1, es.len() as int), r)
    }
}

/// The defect in entry `e`, if any, given the entries standing before it.
pub open spec fn entry_violation(e: (Seq<u8>, u32), prior: Seq<(Seq<u8>, u32)>) -> Option<
    VocabError,
> {
    if e.0.len() == 0 {
        Some(VocabError::EmptyToken)
    } else if e.1 == NO_RANK {
        Some(VocabError::ReservedRank)
    } else if exists|j: int| 0 <= j < prior.len() && prior[j].1 == e.1 {
        Some(VocabError::DuplicateRank)
    } else {
        None
    }
}

/// The first per-entry defect in `es` at or after index `i`, scanning left to right.
pub open spec fn first_violation(es: Seq<(Seq<u8>, u32)>, i: int) -> Option<VocabError>
    decreases es.len() - i,
{
    if i < 0 || i >= es.len() {
        None
    } else if entry_violation(es[i], es.subrange(0, i)) is Some {
        entry_violation(es[i], es.subrange(0, i))
    } else {
        first_violation(es, i + 1)
    }
}

/// Every byte value has a single-byte entry.
pub open spec fn complete(es: Seq<(Seq<u8>, u32)>) -> bool {
    forall|b: u8| find_rank(es, seq![b]) is Some
}

/// An immutable byte-sequence-to-rank mapping, complete over single bytes,
/// with pairwise distinct, non-sentinel ranks.
pub struct Vocabulary {
    entries: Vec<(Vec<u8>, u32)>,
}

impl View for Vocabulary {
    type V = Seq<(Seq<u8>, u32)>;

    closed spec fn view(&self) -> Seq<(Seq<u8>, u32)> {
        self.entries@.map_values(|e: (Vec<u8>, u32)| (e.0@, e.1))
    }
}

impl Vocabulary {
    /// The construction invariant: no per-entry defect and single-byte completeness.
    pub open spec fn wf(&self) -> bool {
        &&& first_violation(self@, 0) is None
        &&& complete(self@)
    }

    /// The rank the vocabulary assigns to `key`, if any.
    pub open spec fn spec_lookup(&self, key: Seq<u8>) -> Option<u32> {
        find_rank(self@, key)
    }

    /// The byte sequence the vocabulary assigns to rank `r`, if any.
    pub open spec fn spec_bytes_of(&self, r: u32) -> Option<Seq<u8>> {
        find_bytes(self@, r)
    }

    /// Builds a vocabulary from an entry list, checking the invariants:
    /// non-empty byte sequences, no sentinel rank, no duplicate rank, and an
    /// entry for every single byte value. The first defect in entry order is
    /// reported; `Incomplete` is reported only when no entry is defective.
    pub fn new(entries: Vec<(Vec<u8>, u32)>) -> (r: Result<Vocabulary, VocabError>)
        ensures
            match r {
                Ok(v) => {
                    &&& v.wf()
                    &&& v@ == entries@.map_values(|e: (Vec<u8>, u32)| (e.0@, e.1))
                },
                Err(e) => {
                    let es = entries@.map_values(|e: (Vec<u8>, u32)| (e.0@, e.1));
                    &&& !(first_violation(es, 0) is None && complete(es))
                    &&& e == (match first_violation(es, 0) {
                        Some(v) => v,
                        None => VocabError::Incomplete,
                    })
                },
            },
    {
        let ghost es = entries@.map_values(|e: (Vec<u8>, u32)| (e.0@, e.1));
        let mut seen_ranks: HashSet<u32> = HashSet::new();
        let mut byte_seen: Vec<bool> = Vec::new();
        let mut b: usize = 0;
        while b < 256
            invariant
                byte_seen@.len() == b,
                b <= 256,
                forall|j: int| 0 <= j < b ==> byte_seen@[j] == false,
            decreases 256 - b,
        {
            byte_seen.push(false);
            b = b + 1;
        }
        let mut i: usize = 0;
        while i < entries.len()
            invariant
                es == entries@.map_values(|e: (Vec<u8>, u32)| (e.0@, e.1)),
                i <= entries.len(),
                es.len() == entries.len(),
                first_violation(es, 0) == first_violation(es, i as int),
                seen_ranks@ == Set::new(|r: u32| exists|j: int| 0 <= j < i && es[j].1 == r),
                byte_seen@.len() == 256,
                forall|v: u8| byte_seen@[v as int] <==> (exists|j: int|
                    0 <= j < i && es[j].0 == seq![v]),
            decreases entries.len() - i,
        {
            proof {
                assert(es[i as int] == (entries@[i as int].0@, entries@[i as int].1));
            }
            let key_len = entries[i].0.len();
            if key_len == 0 {
                proof {
                    lemma_first_violation_found(es, i as int, VocabError::EmptyToken);
                }
                return Err(VocabError::EmptyToken);
            }
            let rank = entries[i].1;
            if rank == NO_RANK {
                proof {
                    lemma_first_violation_found(es, i as int, VocabError::ReservedRank);
                }
                return Err(VocabError::ReservedRank);
            }
            let fresh = seen_ranks.insert(rank);
            if !fresh {
                proof {
                    let j = choose|j: int| 0 <= j < i && es[j].1 == rank;
                    assert(es.subrange(0, i as int)[j] == es[j]);
                    assert(entry_violation(es[i as int], es.subrange(0, i as int)) == Some(
                        VocabError::DuplicateRank,
                    ));
                    lemma_first_violation_found(es, i as int, VocabError::DuplicateRank);
                }
                return Err(VocabError::DuplicateRank);
            }
            if key_len == 1 {
                let v = entries[i].0[0];
                byte_seen.set(v as usize, true);
                proof {
                    assert(es[i as int].0 == seq![v]);
                }
            }
            proof {
                assert(entry_violation(es[i as int], es.subrange(0, i as int)) is None);
                assert(seen_ranks@ =~= Set::new(
                    |r: u32| exists|j: int| 0 <= j < i + 1 && es[j].1 == r,
                ));
                assert forall|v: u8| byte_seen@[v as int] <==> (exists|j: int|
                    0 <= j < i + 1 && es[j].0 == seq![v]) by {
                    if byte_seen@[v as int] {
                    }
                }
            }
            i = i + 1;
        }
        let mut b2: usize = 0;
        while b2 < 256
            invariant
                es == entries@.map_values(|e: (Vec<u8>, u32)| (e.0@, e.1)),
                byte_seen@.len() == 256,
                b2 <= 256,
                forall|v: u8| byte_seen@[v as int] <==> (exists|j: int|
                    0 <= j < es.len() && es[j].0 == seq![v]),
                forall|v: u8| v < b2 ==> find_rank(es, seq![v]) is Some,
                first_violation(es, 0) is None,
            decreases 256 - b2,
        {
            if !byte_seen[b2] {
                proof {
                    let v = b2 as u8;
                    assert(byte_seen@[v as int] == false);
                    assert(forall|j: int| 0 <= j < es.len() ==> es[j].0 != seq![v]);
                    lemma_find_rank_none(es, seq![v]);
                    assert(!(find_rank(es, seq![v]) is Some));
                    assert(!complete(es));
                }
                return Err(VocabError::Incomplete);
            }
            proof {
                let v = b2 as u8;
                let j = choose|j: int| 0 <= j < es.len() && es[j].0 == seq![v];
                lemma_find_rank_some(es, seq![v], j);
            }
            b2 = b2 + 1;
        }
        Ok(Vocabulary { entries })
    }

    /// Exact-match lookup of a byte slice.
    pub fn lookup(&self, key: &[u8]) -> (r: Option<u32>)
        ensures
            r == self.spec_lookup(key@),
    {
        proof {
            assert(self@.subrange(0, self@.len() as int) =~= self@);
        }
        let mut i: usize = 0;
        while i < self.entries.len()
            invariant
                i <= self.entries.len(),
                find_rank(self@, key@) == find_rank(
                    self@.subrange(i as int, self@.len() as int),
                    key@,
                ),
            decreases self.entries.len() - i,
        {
            proof {
                assert(self@[i as int] == (self.entries@[i as int].0@, self.entries@[i as int].1));
            }
            if bytes_eq(self.entries[i].0.as_slice(), key) {
                proof {
                    let tail = self@.subrange(i as int, self@.len() as int);
                    assert(tail[0] == self@[i as int]);
                }
                return Some(self.entries[i].1);
            }
            proof {
                let tail = self@.subrange(i as int, self@.len() as int);
                assert(tail[0] == self@[i as int]);
                assert(tail.subrange(1, tail.len() as int) =~= self@.subrange(
                    i + 1,
                    self@.len() as int,
                ));
            }
            i = i + 1;
        }
        None
    }

    /// Reverse lookup: the byte sequence of the first entry with rank `r`.
    pub fn bytes_of(&self, r: u32) -> (res: Option<Vec<u8>>)
        ensures
            match res {
                Some(bs) => self.spec_bytes_of(r) == Some(bs@),
                None => self.spec_bytes_of(r) is None,
            },
    {
        proof {
            assert(self@.subrange(0, self@.len() as int) =~= self@);
        }
        let mut i: usize = 0;
        while i < self.entries.len()
            invariant
                i <= self.entries.len(),
                find_bytes(self@, r) == find_bytes(
                    self@.subrange(i as int, self@.len() as int),
                    r,
                ),
            decreases self.entries.len() - i,
        {
            proof {
                assert(self@[i as int] == (self.entries@[i as int].0@, self.entries@[i as int].1));
                let tail = self@.subrange(i as int, self@.len() as int);
                assert(tail[0] == self@[i as int]);
                assert(tail.subrange(1, tail.len() as int) =~= self@.subrange(
                    i + 1,
                    self@.len() as int,
                ));
            }
            if self.entries[i].1 == r {
                return Some(self.entries[i].0.clone());
            }
            i = i + 1;
        }
        None
    }
}

/// Two byte slices hold the same bytes.
pub fn bytes_eq(a: &[u8], b: &[u8]) -> (r: bool)
    ensures
        r == (a@ == b@),
{
    if a.len() != b.len() {
        proof {
            assert(a@.len() != b@.len());
        }
        return false;
    }
    let mut i: usize = 0;
    while i < a.len()
        invariant
            i <= a.len(),
            a@.len() == b@.len(),
            forall|j: int| 0 <= j < i ==> a@[j] == b@[j],
        decreases a.len() - i,
    {
        if a[i] != b[i] {
            return false;
        }
        i = i + 1;
    }
    proof {
        assert(a@ =~= b@);
    }
    true
}

/// A violation found at entry `i`, all earlier entries clean, is the first violation.
proof fn lemma_first_violation_found(es: Seq<(Seq<u8>, u32)>, i: int, e: VocabError)
    requires
        0 <= i < es.len(),
        first_violation(es, 0) == first_violation(es, i),
        entry_violation(es[i], es.subrange(0, i)) == Some(e),
    ensures
        first_violation(es, 0) == Some(e),
{
}

/// If no entry at or after `i` has key `k`, the lookup from `i` on fails.
proof fn lemma_find_rank_none(es: Seq<(Seq<u8>, u32)>, k: Seq<u8>)
    requires
        forall|j: int| 0 <= j < es.len() ==> es[j].0 != k,
    ensures
        find_rank(es, k) is None,
    decreases es.len(),
{
    if es.len() > 0 {
        lemma_find_rank_none(es.subrange(1, es.len() as int), k);
    }
}

/// A successful lookup names the first entry with that key.
pub proof fn lemma_find_rank_index(es: Seq<(Seq<u8>, u32)>, k: Seq<u8>)
    requires
        find_rank(es, k) is Some,
    ensures
        exists|i: int|
            {
                &&& 0 <= i < es.len()
                &&& (#[trigger] es[i]).0 == k
                &&& es[i].1 == find_rank(es, k)->Some_0
                &&& forall|j: int| 0 <= j < i ==> (#[trigger] es[j]).0 != k
            },
    decreases es.len(),
{
    if es[0].0 == k {
        assert(es[0].0 == k && es[0].1 == find_rank(es, k)->Some_0);
    } else {
        let tail = es.subrange(1, es.len() as int);
        lemma_find_rank_index(tail, k);
        let i0 = choose|i: int|
            {
                &&& 0 <= i < tail.len()
                &&& (#[trigger] tail[i]).0 == k
                &&& tail[i].1 == find_rank(tail, k)->Some_0
                &&& forall|j: int| 0 <= j < i ==> (#[trigger] tail[j]).0 != k
            };
        assert(es[i0 + 1] == tail[i0]);
        assert forall|j: int| 0 <= j < i0 + 1 implies (#[trigger] es[j]).0 != k by {
            if j > 0 {
                assert(tail[j - 1] == es[j]);
            }
        }
        assert({
            &&& 0 <= i0 + 1 < es.len()
            &&& (es[i0 + 1]).0 == k
            &&& es[i0 + 1].1 == find_rank(es, k)->Some_0
            &&& forall|j: int| 0 <= j < i0 + 1 ==> (#[trigger] es[j]).0 != k
        });
    }
}

/// When entry `i` is the first to carry rank `r`, the reverse lookup finds it.
pub proof fn lemma_find_bytes_some(es: Seq<(Seq<u8>, u32)>, r: u32, i: int)
    requires
        0 <= i < es.len(),
        es[i].1 == r,
        forall|j: int| 0 <= j < i ==> (#[trigger] es[j]).1 != r,
    ensures
        find_bytes(es, r) == Some(es[i].0),
    decreases es.len(),
{
    if es[0].1 != r {
        let tail = es.subrange(1, es.len() as int);
        assert(tail[i - 1] == es[i]);
        assert forall|j: int| 0 <= j < i - 1 implies (#[trigger] tail[j]).1 != r by {
            assert(tail[j] == es[j + 1]);
        }
        lemma_find_bytes_some(tail, r, i - 1);
    }
}

/// Entries free of violations have non-empty keys and pairwise distinct,
/// non-sentinel ranks.
pub proof fn lemma_no_violation_distinct(es: Seq<(Seq<u8>, u32)>)
    requires
        first_violation(es, 0) is None,
    ensures
        forall|i: int| 0 <= i < es.len() ==> (#[trigger] es[i]).0.len() > 0,
        forall|i: int| 0 <= i < es.len() ==> (#[trigger] es[i]).1 != NO_RANK,
        forall|i: int, j: int|
            0 <= i < j < es.len() ==> (#[trigger] es[i]).1 != (#[trigger] es[j]).1,
{
    assert forall|j: int| 0 <= j < es.len() implies entry_violation(
        es[j],
        es.subrange(0, j),
    ) is None by {
        lemma_no_violation_through(es, 0, j);
    }
    assert forall|i: int, j: int|
        0 <= i < j < es.len() implies (#[trigger] es[i]).1 != (#[trigger] es[j]).1 by {
        assert(entry_violation(es[j], es.subrange(0, j)) is None);
        assert(es.subrange(0, j)[i] == es[i]);
    }
}

/// No violation from `i` on means no violation at any later entry.
proof fn lemma_no_violation_through(es: Seq<(Seq<u8>, u32)>, i: int, j: int)
    requires
        0 <= i <= j < es.len(),
        first_violation(es, i) is None,
    ensures
        entry_violation(es[j], es.subrange(0, j)) is None,
    decreases j - i,
{
    if i < j {
        lemma_no_violation_through(es, i + 1, j);
    }
}

/// In a violation-free entry list, the reverse lookup inverts the lookup.
pub proof fn lemma_lookup_inverse(es: Seq<(Seq<u8>, u32)>, k: Seq<u8>)
    requires
        first_violation(es, 0) is None,
        find_rank(es, k) is Some,
    ensures
        find_bytes(es, find_rank(es, k)->Some_0) == Some(k),
{
    let r = find_rank(es, k)->Some_0;
    lemma_no_violation_distinct(es);
    lemma_find_rank_index(es, k);
    let i = choose|i: int|
        {
            &&& 0 <= i < es.len()
            &&& (#[trigger] es[i]).0 == k
            &&& es[i].1 == r
            &&& forall|j: int| 0 <= j < i ==> (#[trigger] es[j]).0 != k
        };
    assert forall|j: int| 0 <= j < i implies (#[trigger] es[j]).1 != r by {
        assert(es[j].1 != es[i].1);
    }
    lemma_find_bytes_some(es, r, i);
}

/// If entry `j` has key `k`, the lookup succeeds.
proof fn lemma_find_rank_some(es: Seq<(Seq<u8>, u32)>, k: Seq<u8>, j: int)
    requires
        0 <= j < es.len(),
        es[j].0 == k,
    ensures
        find_rank(es, k) is Some,
    decreases es.len(),
{
    if es[0].0 != k {
        lemma_find_rank_some(es.subrange(1, es.len() as int), k, j - 1);
    }
}

} // verus!
