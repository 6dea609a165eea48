//! The merge engine: reduces a piece that is not itself a vocabulary entry
//! to the boundary list of its byte-pair merge, and from it to ranks.
//!
//! The piece starts as one boundary per byte. While some adjacent pair of
//! spans concatenates to a vocabulary entry, the pair whose entry has the
//! lowest rank merges; among equal ranks the leftmost pair merges first.

use vstd::prelude::*;
use vstd::pervasive::VecAdditionalExecFns;
use vstd::slice::slice_subrange;
use crate::vocab::{Vocabulary, NO_RANK, find_rank, complete};

verus! {

/// The rank of `s` in the entry list, or the sentinel when absent.
pub open spec fn rank_or_sentinel(voc: Seq<(Seq<u8>, u32)>, s: Seq<u8>) -> u32 {
    match find_rank(voc, s) {
        Some(r) => r,
        None => NO_RANK,
    }
}

/// The boundary list a piece of `n` bytes starts from: every offset `0..=n`.
pub open spec fn init_bounds(n: nat) -> Seq<int> {
    Seq::new(n + 1, |k: int| k)
}

/// The boundary offsets of an annotated parts list.
pub open spec fn offsets(parts: Seq<(usize, u32)>) -> Seq<int> {
    parts.map_values(|p: (usize, u32)| p.0 as int)
}

/// The boundary offsets of a bare offset list.
pub open spec fn offsets_of(bs: Seq<usize>) -> Seq<int> {
    bs.map_values(|x: usize| x as int)
}

/// The rank annotation at boundary `i`: the rank of the span from `b[i]`
/// to `b[i + 2]` (the two spans that a merge at `i` would join), or the
/// sentinel where no such pair exists.
pub open spec fn pair_rank(voc: Seq<(Seq<u8>, u32)>, piece: Seq<u8>, b: Seq<int>, i: int) -> u32 {
    if 0 <= i && i + 2 < b.len() && 0 <= b[i] && b[i] <= b[i + 2] && b[i + 2] <= piece.len() {
        rank_or_sentinel(voc, piece.subrange(b[i], b[i + 2]))
    } else {
        NO_RANK
    }
}

/// Boundary `i` is the one that merges next: its pair is mergeable, its rank
/// is minimal over all boundaries, and no boundary to its left ties with it.
pub open spec fn is_merge_idx(
    voc: Seq<(Seq<u8>, u32)>,
    piece: Seq<u8>,
    b: Seq<int>,
    i: int,
) -> bool {
    &&& 0 <= i < b.len()
    &&& pair_rank(voc, piece, b, i) < NO_RANK
    &&& forall|j: int|
        0 <= j < b.len() ==> pair_rank(voc, piece, b, i) <= pair_rank(voc, piece, b, j)
    &&& forall|j: int| 0 <= j < i ==> pair_rank(voc, piece, b, j) > pair_rank(voc, piece, b, i)
}

/// The boundary list after all merges: while some pair is mergeable, the
/// leftmost minimal-rank boundary absorbs the boundary after it.
pub open spec fn merge_bounds(voc: Seq<(Seq<u8>, u32)>, piece: Seq<u8>, b: Seq<int>) -> Seq<int>
    decreases b.len(),
{
    if exists|i: int| is_merge_idx(voc, piece, b, i) {
        let i = choose|i: int| is_merge_idx(voc, piece, b, i);
        if 0 <= i && i + 1 < b.len() {
            merge_bounds(voc, piece, b.remove(i + 1))
        } else {
            b
        }
    } else {
        b
    }
}

/// The merge of a whole piece, from the per-byte boundary list.
pub open spec fn bpe_bounds(voc: Seq<(Seq<u8>, u32)>, piece: Seq<u8>) -> Seq<int> {
    merge_bounds(voc, piece, init_bounds(piece.len()))
}

/// The ranks of the consecutive spans that `b` delimits in `piece`.
pub open spec fn ranks_of_bounds(voc: Seq<(Seq<u8>, u32)>, piece: Seq<u8>, b: Seq<int>) -> Seq<
    u32,
> {
    Seq::new((b.len() - 1) as nat, |j: int| rank_or_sentinel(voc, piece.subrange(b[j], b[j + 1])))
}

/// The rank sequence the merge engine produces for `piece`.
pub open spec fn spec_byte_pair_encode(voc: Seq<(Seq<u8>, u32)>, piece: Seq<u8>) -> Seq<u32> {
    ranks_of_bounds(voc, piece, bpe_bounds(voc, piece))
}

/// A boundary list is well-formed for `piece`: strictly increasing offsets
/// from `0` to the piece's length.
pub open spec fn bounds_wf(piece: Seq<u8>, b: Seq<int>) -> bool {
    &&& b.len() >= 2
    &&& b[0] == 0
    &&& b[b.len() - 1] == piece.len()
    &&& forall|j: int| 0 <= j < b.len() - 1 ==> b[j] < #[trigger] b[j + 1]
}

/// Every consecutive span that `b` delimits is a vocabulary entry.
pub open spec fn spans_known(voc: Seq<(Seq<u8>, u32)>, piece: Seq<u8>, b: Seq<int>) -> bool {
    forall|j: int|
        0 <= j < b.len() - 1 ==> find_rank(voc, piece.subrange(b[j], #[trigger] b[j + 1])) is Some
}

/// Boundaries are monotone across any gap, not only between neighbours.
pub proof fn lemma_bounds_sorted(piece: Seq<u8>, b: Seq<int>, j: int, k: int)
    requires
        bounds_wf(piece, b),
        0 <= j < k < b.len(),
    ensures
        b[j] < b[k],
    decreases k - j,
{
    if j + 1 < k {
        lemma_bounds_sorted(piece, b, j + 1, k);
    } else {
        assert(b[j] < b[j + 1]);
    }
}

/// Every boundary offset lies inside the piece.
pub proof fn lemma_offsets_in_range(piece: Seq<u8>, parts: Seq<(usize, u32)>)
    requires
        bounds_wf(piece, offsets(parts)),
    ensures
        forall|k: int| 0 <= k < parts.len() ==> #[trigger] parts[k].0 <= piece.len(),
        forall|k: int| 0 <= k < parts.len() - 1 ==> #[trigger] parts[k].0 <= parts[k + 1].0,
{
    let b = offsets(parts);
    assert forall|k: int| 0 <= k < parts.len() implies #[trigger] parts[k].0 <= piece.len() by {
        if k < parts.len() - 1 {
            lemma_bounds_sorted(piece, b, k, b.len() - 1);
        }
    }
    assert forall|k: int|
        0 <= k < parts.len() - 1 implies #[trigger] parts[k].0 <= parts[k + 1].0 by {
        assert(b[k] < b[k + 1]);
    }
}

/// Two boundaries that both merge next are the same boundary.
pub proof fn lemma_merge_idx_unique(
    voc: Seq<(Seq<u8>, u32)>,
    piece: Seq<u8>,
    b: Seq<int>,
    i1: int,
    i2: int,
)
    requires
        is_merge_idx(voc, piece, b, i1),
        is_merge_idx(voc, piece, b, i2),
    ensures
        i1 == i2,
{
    if i1 < i2 {
        assert(pair_rank(voc, piece, b, i1) > pair_rank(voc, piece, b, i2));
        assert(pair_rank(voc, piece, b, i2) >= pair_rank(voc, piece, b, i1));
    }
    if i2 < i1 {
        assert(pair_rank(voc, piece, b, i2) > pair_rank(voc, piece, b, i1));
        assert(pair_rank(voc, piece, b, i1) >= pair_rank(voc, piece, b, i2));
    }
}

/// One merge step keeps the boundary list well-formed and its spans known.
pub proof fn lemma_merge_step(voc: Seq<(Seq<u8>, u32)>, piece: Seq<u8>, b: Seq<int>, i: int)
    requires
        bounds_wf(piece, b),
        spans_known(voc, piece, b),
        is_merge_idx(voc, piece, b, i),
    ensures
        i + 2 < b.len(),
        bounds_wf(piece, b.remove(i + 1)),
        spans_known(voc, piece, b.remove(i + 1)),
{
    assert(i + 2 < b.len()) by {
        assert(pair_rank(voc, piece, b, i) < NO_RANK);
    }
    b.remove_ensures(i + 1);
    let nb = b.remove(i + 1);
    assert forall|j: int| 0 <= j < nb.len() - 1 implies nb[j] < #[trigger] nb[j + 1] by {
        if j < i {
            assert(nb[j] == b[j] && nb[j + 1] == b[j + 1]);
            assert(b[j] < b[j + 1]);
        } else if j == i {
            assert(nb[j] == b[i] && nb[j + 1] == b[i + 2]);
            lemma_bounds_sorted(piece, b, i, i + 2);
        } else {
            assert(nb[j] == b[j + 1] && nb[j + 1] == b[j + 2]);
            assert(b[j + 1] < b[j + 2]);
        }
    }
    assert(nb[nb.len() - 1] == b[b.len() - 1]);
    assert forall|j: int|
        0 <= j < nb.len() - 1 implies find_rank(
        voc,
        piece.subrange(nb[j], #[trigger] nb[j + 1]),
    ) is Some by {
        if j < i {
            assert(nb[j] == b[j] && nb[j + 1] == b[j + 1]);
            assert(find_rank(voc, piece.subrange(b[j], b[j + 1])) is Some);
        } else if j == i {
            assert(nb[j] == b[i] && nb[j + 1] == b[i + 2]);
            assert(pair_rank(voc, piece, b, i) < NO_RANK);
        } else {
            assert(nb[j] == b[j + 1] && nb[j + 1] == b[j + 2]);
            assert(find_rank(voc, piece.subrange(b[j + 1], b[j + 2])) is Some);
        }
    }
}

/// When boundary `i` merges next, the final boundary list is reached through
/// the list with boundary `i + 1` removed.
pub proof fn lemma_merge_bounds_step(voc: Seq<(Seq<u8>, u32)>, piece: Seq<u8>, b: Seq<int>, i: int)
    requires
        is_merge_idx(voc, piece, b, i),
    ensures
        merge_bounds(voc, piece, b) == merge_bounds(voc, piece, b.remove(i + 1)),
{
    let ic = choose|k: int| is_merge_idx(voc, piece, b, k);
    lemma_merge_idx_unique(voc, piece, b, ic, i);
    assert(pair_rank(voc, piece, b, i) < NO_RANK);
    assert(i + 2 < b.len());
}

/// When no pair is mergeable, the boundary list is final.
pub proof fn lemma_merge_bounds_fixed(voc: Seq<(Seq<u8>, u32)>, piece: Seq<u8>, b: Seq<int>)
    requires
        forall|j: int| 0 <= j < b.len() ==> pair_rank(voc, piece, b, j) == NO_RANK,
    ensures
        merge_bounds(voc, piece, b) == b,
{
    assert(!(exists|i: int| is_merge_idx(voc, piece, b, i)));
}

/// The merge keeps the boundary list well-formed and its spans known, all
/// the way to the final list.
pub proof fn lemma_merge_bounds_preserves(voc: Seq<(Seq<u8>, u32)>, piece: Seq<u8>, b: Seq<int>)
    requires
        bounds_wf(piece, b),
        spans_known(voc, piece, b),
    ensures
        bounds_wf(piece, merge_bounds(voc, piece, b)),
        spans_known(voc, piece, merge_bounds(voc, piece, b)),
    decreases b.len(),
{
    if exists|i: int| is_merge_idx(voc, piece, b, i) {
        let i = choose|i: int| is_merge_idx(voc, piece, b, i);
        lemma_merge_step(voc, piece, b, i);
        lemma_merge_bounds_preserves(voc, piece, b.remove(i + 1));
    }
}

/// In a complete vocabulary, every single byte is an entry, so the per-byte
/// boundary list of any piece has all spans known.
pub proof fn lemma_init_spans_known(voc: Seq<(Seq<u8>, u32)>, piece: Seq<u8>)
    requires
        complete(voc),
    ensures
        spans_known(voc, piece, init_bounds(piece.len())),
{
    let b = init_bounds(piece.len());
    assert forall|j: int|
        0 <= j < b.len() - 1 implies find_rank(
        voc,
        piece.subrange(b[j], #[trigger] b[j + 1]),
    ) is Some by {
        assert(piece.subrange(j, j + 1) =~= seq![piece[j]]);
        assert(find_rank(voc, seq![piece[j]]) is Some);
    }
}

/// How each rank annotation reads after the boundary after `i` is removed:
/// annotations left of `i - 1` stand, the two at `i - 1` and `i` are the
/// ranks of the enlarged spans, and those right of `i` shift down by one.
pub proof fn lemma_pair_rank_after_remove(
    voc: Seq<(Seq<u8>, u32)>,
    piece: Seq<u8>,
    b: Seq<int>,
    i: int,
    k: int,
)
    requires
        bounds_wf(piece, b),
        0 <= i,
        i + 2 < b.len(),
        0 <= k < b.len() - 1,
    ensures
        pair_rank(voc, piece, b.remove(i + 1), k) == (if k < i - 1 {
            pair_rank(voc, piece, b, k)
        } else if k <= i {
            if k + 3 < b.len() {
                rank_or_sentinel(voc, piece.subrange(b[k], b[k + 3]))
            } else {
                NO_RANK
            }
        } else {
            pair_rank(voc, piece, b, k + 1)
        }),
{
    b.remove_ensures(i + 1);
    let nb = b.remove(i + 1);
    if k < i - 1 {
        assert(nb[k] == b[k]);
        if k + 2 < nb.len() {
            assert(nb[k + 2] == b[k + 2]);
        }
    } else if k <= i {
        assert(nb[k] == b[k]);
        if k + 2 < nb.len() {
            assert(nb[k + 2] == b[k + 3]);
            lemma_bounds_sorted(piece, b, k, k + 3);
            lemma_bounds_sorted(piece, b, 0, k + 3);
            if k > 0 {
                lemma_bounds_sorted(piece, b, 0, k);
            }
            if k + 3 < b.len() - 1 {
                lemma_bounds_sorted(piece, b, k + 3, b.len() - 1);
            }
        }
    } else {
        if k < nb.len() {
            assert(nb[k] == b[k + 1]);
        }
        if k + 2 < nb.len() {
            assert(nb[k + 2] == b[k + 3]);
        }
    }
}

/// The leftmost boundary with the minimal cached rank, with the sentinel
/// when every cached rank is the sentinel.
fn find_min(parts: &Vec<(usize, u32)>) -> (r: (u32, usize))
    ensures
        if exists|j: int| 0 <= j < parts@.len() && parts@[j].1 < NO_RANK {
            &&& r.1 < parts@.len()
            &&& parts@[r.1 as int].1 == r.0
            &&& r.0 < NO_RANK
            &&& forall|j: int| 0 <= j < parts@.len() ==> r.0 <= parts@[j].1
            &&& forall|j: int| 0 <= j < r.1 ==> parts@[j].1 > r.0
        } else {
            r.0 == NO_RANK
        },
{
    let mut mr: u32 = NO_RANK;
    let mut mi: usize = 0;
    let mut j: usize = 0;
    while j < parts.len()
        invariant
            j <= parts@.len(),
            mr < NO_RANK ==> {
                &&& mi < j
                &&& parts@[mi as int].1 == mr
                &&& forall|k: int| 0 <= k < j ==> mr <= parts@[k].1
                &&& forall|k: int| 0 <= k < mi ==> parts@[k].1 > mr
            },
            mr == NO_RANK ==> forall|k: int| 0 <= k < j ==> parts@[k].1 == NO_RANK,
        decreases parts@.len() - j,
    {
        if parts[j].1 < mr {
            mr = parts[j].1;
            mi = j;
        }
        j = j + 1;
    }
    (mr, mi)
}

/// The rank of the pair of spans starting at boundary `j`, as the cached
/// annotation defines it: the span from offset `parts[j].0` to
/// `parts[j + 3].0`, the boundary at `j + 1` being about to be removed.
fn get_rank(voc: &Vocabulary, piece: &[u8], parts: &Vec<(usize, u32)>, j: usize) -> (r: u32)
    requires
        j < parts@.len(),
        forall|k: int| 0 <= k < parts@.len() ==> #[trigger] parts@[k].0 <= piece@.len(),
        forall|k: int| 0 <= k < parts@.len() - 1 ==> #[trigger] parts@[k].0 <= parts@[k + 1].0,
    ensures
        r == (if j + 3 < parts@.len() {
            rank_or_sentinel(
                voc@,
                piece@.subrange(parts@[j as int].0 as int, parts@[j + 3].0 as int),
            )
        } else {
            NO_RANK
        }),
{
    if parts.len() > 3 && j < parts.len() - 3 {
        let lo = parts[j].0;
        let hi = parts[j + 3].0;
        proof {
            assert(parts@[j as int].0 <= parts@[j + 1].0);
            assert(parts@[j + 1].0 <= parts@[j + 2].0);
            assert(parts@[j + 2].0 <= parts@[j + 3].0);
        }
        let span = slice_subrange(piece, lo, hi);
        match voc.lookup(span) {
            Some(r) => r,
            None => NO_RANK,
        }
    } else {
        NO_RANK
    }
}

impl Vocabulary {
    /// Runs the byte-pair merge over `piece` and returns the boundary list,
    /// each boundary annotated with the rank of the pair starting there.
    /// The offsets are exactly the merge's final boundaries; given a
    /// well-formed vocabulary every span between consecutive boundaries is
    /// a vocabulary entry.
    #[verifier::rlimit(100)]
    pub fn byte_pair_merge(&self, piece: &[u8]) -> (parts: Vec<(usize, u32)>)
        requires
            self.wf(),
            2 <= piece@.len(),
            piece@.len() < usize::MAX,
        ensures
            offsets(parts@) == bpe_bounds(self@, piece@),
            bounds_wf(piece@, bpe_bounds(self@, piece@)),
            spans_known(self@, piece@, bpe_bounds(self@, piece@)),
    {
        let n = piece.len();
        let mut parts: Vec<(usize, u32)> = Vec::new();
        let ghost b0 = init_bounds(piece@.len());
        let mut i: usize = 0;
        while i < n - 1
            invariant
                b0 == init_bounds(piece@.len()),
                n == piece@.len(),
                2 <= n < usize::MAX,
                i <= n - 1,
                parts@.len() == i,
                forall|k: int| 0 <= k < i ==> #[trigger] parts@[k].0 == k,
                forall|k: int|
                    0 <= k < i ==> #[trigger] parts@[k].1 == pair_rank(self@, piece@, b0, k),
            decreases n - i,
        {
            let span = slice_subrange(piece, i, i + 2);
            let rank = match self.lookup(span) {
                Some(r) => r,
                None => NO_RANK,
            };
            proof {
                assert(b0[i as int] == i && b0[i + 2] == i + 2);
                assert(pair_rank(self@, piece@, b0, i as int) == rank_or_sentinel(
                    self@,
                    piece@.subrange(i as int, i + 2),
                ));
            }
            parts.push((i, rank));
            i = i + 1;
        }
        parts.push((n - 1, NO_RANK));
        parts.push((n, NO_RANK));
        proof {
            assert forall|k: int|
                0 <= k < parts@.len() implies #[trigger] parts@[k].1 == pair_rank(
                self@,
                piece@,
                b0,
                k,
            ) by {
                if k >= n - 1 {
                    assert(k + 2 >= b0.len());
                }
            }
            assert(offsets(parts@) =~= b0);
            lemma_init_spans_known(self@, piece@);
            assert(bounds_wf(piece@, b0));
        }
        let mut cur = find_min(&parts);
        while cur.0 != NO_RANK
            invariant
                self.wf(),
                piece@.len() < usize::MAX,
                parts@.len() >= 2,
                bounds_wf(piece@, offsets(parts@)),
                spans_known(self@, piece@, offsets(parts@)),
                forall|k: int|
                    0 <= k < parts@.len() ==> #[trigger] parts@[k].1 == pair_rank(
                        self@,
                        piece@,
                        offsets(parts@),
                        k,
                    ),
                merge_bounds(self@, piece@, offsets(parts@)) == bpe_bounds(self@, piece@),
                cur.0 < NO_RANK ==> is_merge_idx(self@, piece@, offsets(parts@), cur.1 as int),
                cur.0 == NO_RANK ==> forall|k: int|
                    0 <= k < parts@.len() ==> #[trigger] parts@[k].1 == NO_RANK,
            decreases parts@.len(),
        {
            let ghost op = parts@;
            let ghost b = offsets(op);
            let mi = cur.1;
            proof {
                lemma_merge_step(self@, piece@, b, mi as int);
                lemma_merge_bounds_step(self@, piece@, b, mi as int);
                lemma_offsets_in_range(piece@, op);
            }
            let nr1: u32 = if mi > 0 {
                get_rank(self, piece, &parts, mi - 1)
            } else {
                NO_RANK
            };
            let nr2: u32 = get_rank(self, piece, &parts, mi);
            if mi > 0 {
                let off1 = parts[mi - 1].0;
                parts.set(mi - 1, (off1, nr1));
            }
            let off2 = parts[mi].0;
            parts.set(mi, (off2, nr2));
            let plen = parts.len();
            proof {
                assert(mi + 2 < plen);
            }
            parts.remove(mi + 1);
            proof {
                b.remove_ensures(mi as int + 1);
                let nb = b.remove(mi as int + 1);
                assert(offsets(parts@) =~= nb);
                assert forall|k: int|
                    0 <= k < parts@.len() implies #[trigger] parts@[k].1 == pair_rank(
                    self@,
                    piece@,
                    nb,
                    k,
                ) by {
                    lemma_pair_rank_after_remove(self@, piece@, b, mi as int, k);
                    if k < mi - 1 {
                        assert(parts@[k] == op[k]);
                        assert(op[k].1 == pair_rank(self@, piece@, b, k));
                    } else if k == mi - 1 {
                        assert(parts@[k].1 == nr1);
                        assert(op[k].0 as int == b[k]);
                        assert(op[k + 3].0 as int == b[k + 3]);
                    } else if k == mi {
                        assert(parts@[k].1 == nr2);
                        assert(op[k].0 as int == b[k]);
                        if k + 3 < op.len() {
                            assert(op[k + 3].0 as int == b[k + 3]);
                        }
                    } else {
                        assert(parts@[k] == op[k + 1]);
                        assert(op[k + 1].1 == pair_rank(self@, piece@, b, k + 1));
                    }
                }
            }
            cur = find_min(&parts);
            proof {
                if cur.0 != NO_RANK {
                    assert(is_merge_idx(self@, piece@, offsets(parts@), cur.1 as int));
                }
            }
        }
        proof {
            let b = offsets(parts@);
            assert forall|j: int|
                0 <= j < b.len() implies pair_rank(self@, piece@, b, j) == NO_RANK by {
                assert(parts@[j].1 == NO_RANK);
            }
            lemma_merge_bounds_fixed(self@, piece@, b);
        }
        parts
    }

    /// The plain merge strategy: the same merge, recomputing every
    /// pair's rank from the vocabulary on each round instead of keeping
    /// annotations. Quadratic, and by its contract interchangeable with
    /// `byte_pair_merge`: both return exactly the merge's boundary list.
    pub fn byte_pair_merge_naive(&self, piece: &[u8]) -> (bounds: Vec<usize>)
        requires
            self.wf(),
            2 <= piece@.len(),
            piece@.len() < usize::MAX,
        ensures
            offsets_of(bounds@) == bpe_bounds(self@, piece@),
    {
        let n = piece.len();
        let mut bounds: Vec<usize> = Vec::new();
        let mut i: usize = 0;
        while i < n
            invariant
                n == piece@.len(),
                i <= n,
                bounds@.len() == i,
                forall|k: int| 0 <= k < i ==> #[trigger] bounds@[k] == k,
            decreases n - i,
        {
            bounds.push(i);
            i = i + 1;
        }
        bounds.push(n);
        proof {
            assert(offsets_of(bounds@) =~= init_bounds(piece@.len()));
            lemma_init_spans_known(self@, piece@);
            assert(bounds_wf(piece@, offsets_of(bounds@)));
        }
        let mut done = false;
        while !done
            invariant
                self.wf(),
                n == piece@.len(),
                2 <= n < usize::MAX,
                bounds@.len() >= 2,
                bounds_wf(piece@, offsets_of(bounds@)),
                spans_known(self@, piece@, offsets_of(bounds@)),
                merge_bounds(self@, piece@, offsets_of(bounds@)) == bpe_bounds(self@, piece@),
                done ==> offsets_of(bounds@) == bpe_bounds(self@, piece@),
            decreases 2 * bounds@.len() + (if done {
                0int
            } else {
                1int
            }),
        {
            let ghost b = offsets_of(bounds@);
            let mut mr: u32 = NO_RANK;
            let mut mi: usize = 0;
            let mut j: usize = 0;
            proof {
                assert forall|k: int| 0 <= k < bounds@.len() implies #[trigger] bounds@[k]
                    <= piece@.len() by {
                    if k < bounds@.len() - 1 {
                        lemma_bounds_sorted(piece@, b, k, b.len() - 1);
                    }
                }
            }
            while j < bounds.len()
                invariant
                    self.wf(),
                    b == offsets_of(bounds@),
                    bounds_wf(piece@, b),
                    forall|k: int| 0 <= k < bounds@.len() ==> #[trigger] bounds@[k] <= piece@.len(),
                    j <= bounds@.len(),
                    mr < NO_RANK ==> {
                        &&& mi < j
                        &&& pair_rank(self@, piece@, b, mi as int) == mr
                        &&& forall|k: int| 0 <= k < j ==> mr <= pair_rank(self@, piece@, b, k)
                        &&& forall|k: int| 0 <= k < mi ==> pair_rank(self@, piece@, b, k) > mr
                    },
                    mr == NO_RANK ==> forall|k: int|
                        0 <= k < j ==> pair_rank(self@, piece@, b, k) == NO_RANK,
                decreases bounds@.len() - j,
            {
                let pr: u32 = if bounds.len() > 2 && j < bounds.len() - 2 {
                    proof {
                        lemma_bounds_sorted(piece@, b, j as int, j + 1);
                        lemma_bounds_sorted(piece@, b, j + 1, j + 2);
                    }
                    let span = slice_subrange(piece, bounds[j], bounds[j + 2]);
                    match self.lookup(span) {
                        Some(r) => r,
                        None => NO_RANK,
                    }
                } else {
                    NO_RANK
                };
                proof {
                    assert(pr == pair_rank(self@, piece@, b, j as int));
                }
                if pr < mr {
                    mr = pr;
                    mi = j;
                }
                j = j + 1;
            }
            if mr == NO_RANK {
                proof {
                    lemma_merge_bounds_fixed(self@, piece@, b);
                }
                done = true;
            } else {
                proof {
                    assert(is_merge_idx(self@, piece@, b, mi as int));
                    lemma_merge_step(self@, piece@, b, mi as int);
                    lemma_merge_bounds_step(self@, piece@, b, mi as int);
                }
                let blen = bounds.len();
                proof {
                    assert(mi + 2 < blen);
                }
                bounds.remove(mi + 1);
                proof {
                    assert(offsets_of(bounds@) =~= b.remove(mi as int + 1));
                }
            }
        }
        bounds
    }

    /// Runs the plain merge over `piece` and maps each final span to
    /// its rank: the same rank sequence as `byte_pair_encode`, by contract.
    pub fn byte_pair_encode_naive(&self, piece: &[u8]) -> (r: Vec<u32>)
        requires
            self.wf(),
            2 <= piece@.len(),
            piece@.len() < usize::MAX,
        ensures
            r@ == spec_byte_pair_encode(self@, piece@),
    {
        let bounds = self.byte_pair_merge_naive(piece);
        let ghost b = bpe_bounds(self@, piece@);
        proof {
            lemma_init_spans_known(self@, piece@);
            assert(bounds_wf(piece@, init_bounds(piece@.len())));
            lemma_merge_bounds_preserves(self@, piece@, init_bounds(piece@.len()));
        }
        let mut out: Vec<u32> = Vec::new();
        let mut j: usize = 0;
        while j < bounds.len() - 1
            invariant
                self.wf(),
                offsets_of(bounds@) == b,
                b == bpe_bounds(self@, piece@),
                bounds_wf(piece@, b),
                spans_known(self@, piece@, b),
                j <= bounds@.len() - 1,
                bounds@.len() >= 2,
                out@.len() == j,
                forall|k: int|
                    0 <= k < j ==> out@[k] == rank_or_sentinel(
                        self@,
                        piece@.subrange(b[k], b[k + 1]),
                    ),
            decreases bounds@.len() - j,
        {
            proof {
                assert(b[j as int] < b[j + 1]);
                if j + 1 < b.len() - 1 {
                    lemma_bounds_sorted(piece@, b, j + 1, b.len() - 1);
                }
            }
            let span = slice_subrange(piece, bounds[j], bounds[j + 1]);
            match self.lookup(span) {
                Some(r) => out.push(r),
                None => {
                    proof {
                        assert(find_rank(self@, piece@.subrange(b[j as int], b[j + 1])) is Some);
                        assert(false);
                    }
                },
            }
            j = j + 1;
        }
        proof {
            assert(out@ =~= ranks_of_bounds(self@, piece@, b));
        }
        out
    }

    /// Runs the merge over `piece` and maps each final span to its rank.
    /// The result is exactly the merge's rank sequence, in span order.
    pub fn byte_pair_encode(&self, piece: &[u8]) -> (r: Vec<u32>)
        requires
            self.wf(),
            2 <= piece@.len(),
            piece@.len() < usize::MAX,
        ensures
            r@ == spec_byte_pair_encode(self@, piece@),
    {
        let parts = self.byte_pair_merge(piece);
        let ghost b = bpe_bounds(self@, piece@);
        let mut out: Vec<u32> = Vec::new();
        let mut j: usize = 0;
        while j < parts.len() - 1
            invariant
                self.wf(),
                offsets(parts@) == b,
                b == bpe_bounds(self@, piece@),
                bounds_wf(piece@, b),
                spans_known(self@, piece@, b),
                piece@.len() < usize::MAX,
                j <= parts@.len() - 1,
                parts@.len() >= 2,
                out@.len() == j,
                forall|k: int|
                    0 <= k < j ==> out@[k] == rank_or_sentinel(
                        self@,
                        piece@.subrange(b[k], b[k + 1]),
                    ),
            decreases parts@.len() - j,
        {
            proof {
                lemma_offsets_in_range(piece@, parts@);
                assert(b[j as int] == parts@[j as int].0 as int);
                assert(b[j + 1] == parts@[j + 1].0 as int);
            }
            let lo = parts[j].0;
            let hi = parts[j + 1].0;
            let span = slice_subrange(piece, lo, hi);
            match self.lookup(span) {
                Some(r) => out.push(r),
                None => {
                    proof {
                        assert(find_rank(self@, piece@.subrange(b[j as int], b[j + 1])) is Some);
                        assert(false);
                    }
                },
            }
            j = j + 1;
        }
        proof {
            assert(out@ =~= ranks_of_bounds(self@, piece@, b));
        }
        out
    }
}

} // verus!
