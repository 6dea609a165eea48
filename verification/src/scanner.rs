//! The special-token table and its scanner: finds the leftmost occurrence
//! of any reserved literal at or after a given position. Reserved literals
//! are matched verbatim and carry their own ranks.

use vstd::prelude::*;
use std::collections::HashSet;
use crate::vocab::{VocabError, NO_RANK};
use crate::chars::str_chars;

verus! {

broadcast use vstd::std_specs::hash::group_hash_axioms;

/// The literal `tok` stands verbatim at position `i` of `s`.
pub open spec fn match_at(s: Seq<char>, i: int, tok: Seq<char>) -> bool {
    &&& 0 <= i
    &&& i + tok.len() <= s.len()
    &&& s.subrange(i, i + tok.len()) == tok
}

/// The first literal of the table, from entry `t` on, standing at position
/// `i` of `s`.
pub open spec fn first_match_from(
    table: Seq<(Seq<char>, u32)>,
    s: Seq<char>,
    i: int,
    t: int,
) -> Option<int>
    decreases table.len() - t when 0 <= t
{
    if !(0 <= t < table.len()) {
        None
    } else if match_at(s, i, table[t].0) {
        Some(t)
    } else {
        first_match_from(table, s, i, t + 1)
    }
}

/// The leftmost occurrence of any literal at or after position `i`: its
/// position, and the first table entry standing there.
pub open spec fn next_special_from(table: Seq<(Seq<char>, u32)>, s: Seq<char>, i: int) -> Option<
    (int, int),
>
    decreases s.len() - i when 0 <= i
{
    if !(0 <= i < s.len()) {
        None
    } else {
        match first_match_from(table, s, i, 0) {
            Some(t) => Some((i, t)),
            None => next_special_from(table, s, i + 1),
        }
    }
}

/// The byte sequence of the first table entry carrying rank `r`.
pub open spec fn find_special(table: Seq<(Seq<char>, u32)>, r: u32) -> Option<Seq<char>>
    decreases table.len(),
{
    if table.len() == 0 {
        None
    } else if table[0].1 == r {
        Some(table[0].0)
    } else {
        find_special(table.subrange(1, table.len() as int), r)
    }
}

/// The table entries are well-formed: non-empty literals, non-sentinel and
/// pairwise distinct ranks.
pub open spec fn table_entries_wf(table: Seq<(Seq<char>, u32)>) -> bool {
    &&& forall|t: int| 0 <= t < table.len() ==> (#[trigger] table[t]).0.len() > 0
    &&& forall|t: int| 0 <= t < table.len() ==> (#[trigger] table[t]).1 != NO_RANK
    &&& forall|t1: int, t2: int|
        0 <= t1 < t2 < table.len() ==> (#[trigger] table[t1]).1 != (#[trigger] table[t2]).1
}

/// When entry `t` is the first to carry rank `r`, the reverse lookup finds it.
pub proof fn lemma_find_special_some(table: Seq<(Seq<char>, u32)>, r: u32, t: int)
    requires
        0 <= t < table.len(),
        table[t].1 == r,
        forall|u: int| 0 <= u < t ==> (#[trigger] table[u]).1 != r,
    ensures
        find_special(table, r) == Some(table[t].0),
    decreases table.len(),
{
    if table[0].1 != r {
        let tail = table.subrange(1, table.len() as int);
        assert(tail[t - 1] == table[t]);
        assert forall|u: int| 0 <= u < t - 1 implies (#[trigger] tail[u]).1 != r by {
            assert(tail[u] == table[u + 1]);
        }
        lemma_find_special_some(tail, r, t - 1);
    }
}

/// An immutable table of reserved literal strings with their ranks.
pub struct SpecialTable {
    tokens: Vec<(Vec<char>, u32)>,
}

impl View for SpecialTable {
    type V = Seq<(Seq<char>, u32)>;

    closed spec fn view(&self) -> Seq<(Seq<char>, u32)> {
        self.tokens@.map_values(|e: (Vec<char>, u32)| (e.0@, e.1))
    }
}

impl SpecialTable {
    /// The table invariant: non-empty literals, non-sentinel and pairwise
    /// distinct ranks.
    pub open spec fn wf(&self) -> bool {
        table_entries_wf(self@)
    }

    /// Builds the table, rejecting empty literals, the sentinel rank and
    /// duplicate ranks.
    pub fn new(tokens: Vec<(String, u32)>) -> (r: Result<SpecialTable, VocabError>)
        ensures
            match r {
                Ok(tab) => {
                    &&& tab.wf()
                    &&& tab@ == tokens@.map_values(|e: (String, u32)| (e.0@, e.1))
                },
                Err(e) => {
                    let tv = tokens@.map_values(|e: (String, u32)| (e.0@, e.1));
                    &&& !table_entries_wf(tv)
                    &&& match e {
                        VocabError::EmptyToken => exists|t: int|
                            0 <= t < tv.len() && (#[trigger] tv[t]).0.len() == 0,
                        VocabError::ReservedRank => exists|t: int|
                            0 <= t < tv.len() && (#[trigger] tv[t]).1 == NO_RANK,
                        VocabError::DuplicateRank => exists|t1: int, t2: int|
                            0 <= t1 < t2 < tv.len() && (#[trigger] tv[t1]).1 == (
                            #[trigger] tv[t2]).1,
                        VocabError::Incomplete => false,
                    }
                },
            },
    {
        let ghost tv = tokens@.map_values(|e: (String, u32)| (e.0@, e.1));
        let mut out: Vec<(Vec<char>, u32)> = Vec::new();
        let mut seen: HashSet<u32> = HashSet::new();
        let mut i: usize = 0;
        while i < tokens.len()
            invariant
                tv == tokens@.map_values(|e: (String, u32)| (e.0@, e.1)),
                i <= tokens.len(),
                tv.len() == tokens.len(),
                out@.len() == i,
                forall|t: int|
                    0 <= t < i ==> (#[trigger] out@[t].0)@ == tv[t].0 && out@[t].1 == tv[t].1,
                forall|t: int| 0 <= t < i ==> (#[trigger] tv[t]).0.len() > 0,
                forall|t: int| 0 <= t < i ==> (#[trigger] tv[t]).1 != NO_RANK,
                forall|t1: int, t2: int|
                    0 <= t1 < t2 < i ==> (#[trigger] tv[t1]).1 != (#[trigger] tv[t2]).1,
                seen@ == Set::new(|r: u32| exists|t: int| 0 <= t < i && tv[t].1 == r),
            decreases tokens.len() - i,
        {
            proof {
                assert(tv[i as int] == (tokens@[i as int].0@, tokens@[i as int].1));
            }
            let cs = str_chars(tokens[i].0.as_str());
            if cs.len() == 0 {
                return Err(VocabError::EmptyToken);
            }
            let rank = tokens[i].1;
            if rank == NO_RANK {
                return Err(VocabError::ReservedRank);
            }
            let fresh = seen.insert(rank);
            if !fresh {
                proof {
                    let t = choose|t: int| 0 <= t < i && tv[t].1 == rank;
                    assert(tv[t].1 == tv[i as int].1);
                }
                return Err(VocabError::DuplicateRank);
            }
            out.push((cs, rank));
            proof {
                assert(seen@ =~= Set::new(
                    |r: u32| exists|t: int| 0 <= t < i + 1 && tv[t].1 == r,
                ));
                assert forall|t: int|
                    0 <= t < i + 1 implies (#[trigger] out@[t].0)@ == tv[t].0 && out@[t].1
                    == tv[t].1 by {
                    if t < i {
                        assert(out@[t] == out@.drop_last()[t]);
                    }
                }
            }
            i = i + 1;
        }
        let st = SpecialTable { tokens: out };
        proof {
            assert(st@ =~= tv);
        }
        Ok(st)
    }

    /// Whether the literal of entry `t` stands at position `i` of `s`.
    fn token_matches(&self, s: &[char], i: usize, t: usize) -> (r: bool)
        requires
            t < self@.len(),
            i <= s@.len(),
        ensures
            r == match_at(s@, i as int, self@[t as int].0),
    {
        proof {
            assert(self@[t as int] == (self.tokens@[t as int].0@, self.tokens@[t as int].1));
        }
        let tok = &self.tokens[t].0;
        if tok.len() > s.len() - i {
            return false;
        }
        let mut k: usize = 0;
        while k < tok.len()
            invariant
                t < self@.len(),
                self@[t as int].0 == self.tokens@[t as int].0@,
                tok == &self.tokens@[t as int].0,
                i + tok@.len() <= s@.len(),
                s@.len() <= usize::MAX,
                k <= tok@.len(),
                forall|m: int| 0 <= m < k ==> s@[i + m] == tok@[m],
            decreases tok@.len() - k,
        {
            if s[i + k] != tok[k] {
                proof {
                    assert(s@.subrange(i as int, i + tok@.len())[k as int] == s@[i + k]);
                }
                return false;
            }
            k = k + 1;
        }
        proof {
            assert(s@.subrange(i as int, i + tok@.len()) =~= tok@);
        }
        true
    }

    /// The first table entry whose literal stands at position `i`, if any.
    fn first_match(&self, s: &[char], i: usize) -> (r: Option<usize>)
        requires
            i <= s@.len(),
        ensures
            match r {
                Some(t) => first_match_from(self@, s@, i as int, 0) == Some(t as int),
                None => first_match_from(self@, s@, i as int, 0) is None,
            },
    {
        let mut t: usize = 0;
        while t < self.tokens.len()
            invariant
                i <= s@.len(),
                t <= self@.len(),
                self@.len() == self.tokens@.len(),
                first_match_from(self@, s@, i as int, 0) == first_match_from(
                    self@,
                    s@,
                    i as int,
                    t as int,
                ),
            decreases self@.len() - t,
        {
            if self.token_matches(s, i, t) {
                return Some(t);
            }
            t = t + 1;
        }
        None
    }

    /// The leftmost occurrence of any reserved literal at or after `from`:
    /// its position and table entry.
    pub fn find_next(&self, s: &[char], from: usize) -> (r: Option<(usize, usize)>)
        requires
            from <= s@.len(),
        ensures
            match r {
                Some(pt) => next_special_from(self@, s@, from as int) == Some(
                    (pt.0 as int, pt.1 as int),
                ),
                None => next_special_from(self@, s@, from as int) is None,
            },
    {
        let mut i = from;
        while i < s.len()
            invariant
                from <= i <= s@.len(),
                next_special_from(self@, s@, from as int) == next_special_from(
                    self@,
                    s@,
                    i as int,
                ),
            decreases s@.len() - i,
        {
            match self.first_match(s, i) {
                Some(t) => {
                    return Some((i, t));
                },
                None => {},
            }
            i = i + 1;
        }
        None
    }

    /// How many reserved literals the table holds.
    pub fn num_tokens(&self) -> (r: usize)
        ensures
            r == self@.len(),
    {
        self.tokens.len()
    }

    /// The length of the literal of entry `t`.
    pub fn token_len(&self, t: usize) -> (r: usize)
        requires
            t < self@.len(),
        ensures
            r == self@[t as int].0.len(),
    {
        proof {
            assert(self@[t as int] == (self.tokens@[t as int].0@, self.tokens@[t as int].1));
        }
        self.tokens[t].0.len()
    }

    /// The rank of entry `t`.
    pub fn token_rank(&self, t: usize) -> (r: u32)
        requires
            t < self@.len(),
        ensures
            r == self@[t as int].1,
    {
        proof {
            assert(self@[t as int] == (self.tokens@[t as int].0@, self.tokens@[t as int].1));
        }
        self.tokens[t].1
    }

    /// The characters of the first literal carrying rank `r`, if any.
    pub fn chars_of(&self, r: u32) -> (res: Option<Vec<char>>)
        ensures
            match res {
                Some(cs) => find_special(self@, r) == Some(cs@),
                None => find_special(self@, r) is None,
            },
    {
        proof {
            assert(self@.subrange(0, self@.len() as int) =~= self@);
        }
        let mut i: usize = 0;
        while i < self.tokens.len()
            invariant
                i <= self.tokens.len(),
                find_special(self@, r) == find_special(
                    self@.subrange(i as int, self@.len() as int),
                    r,
                ),
            decreases self.tokens.len() - i,
        {
            proof {
                assert(self@[i as int] == (self.tokens@[i as int].0@, self.tokens@[i as int].1));
                let tail = self@.subrange(i as int, self@.len() as int);
                assert(tail[0] == self@[i as int]);
                assert(tail.subrange(1, tail.len() as int) =~= self@.subrange(
                    i + 1,
                    self@.len() as int,
                ));
            }
            if self.tokens[i].1 == r {
                return Some(self.tokens[i].0.clone());
            }
            i = i + 1;
        }
        None
    }
}

/// A found occurrence lies in range and its literal fits the text; the
/// entry index lies in the table.
pub proof fn lemma_next_special_bounds(table: Seq<(Seq<char>, u32)>, s: Seq<char>, i: int)
    requires
        0 <= i,
        next_special_from(table, s, i) is Some,
    ensures
        ({
            let (p, t) = next_special_from(table, s, i)->Some_0;
            &&& i <= p < s.len()
            &&& 0 <= t < table.len()
            &&& match_at(s, p, table[t].0)
        }),
    decreases s.len() - i,
{
    if 0 <= i < s.len() {
        match first_match_from(table, s, i, 0) {
            Some(t) => {
                lemma_first_match_bounds(table, s, i, 0);
            },
            None => {
                lemma_next_special_bounds(table, s, i + 1);
            },
        }
    }
}

/// A first match names a table entry whose literal stands at `i`.
pub proof fn lemma_first_match_bounds(table: Seq<(Seq<char>, u32)>, s: Seq<char>, i: int, t0: int)
    requires
        0 <= t0,
        first_match_from(table, s, i, t0) is Some,
    ensures
        ({
            let t = first_match_from(table, s, i, t0)->Some_0;
            &&& t0 <= t < table.len()
            &&& match_at(s, i, table[t].0)
        }),
    decreases table.len() - t0,
{
    if 0 <= t0 < table.len() && !match_at(s, i, table[t0].0) {
        lemma_first_match_bounds(table, s, i, t0 + 1);
    }
}

} // verus!
