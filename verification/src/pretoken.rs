//! Pre-tokenization: segments text into maximal candidate pieces.
//!
//! At each position the first matching rule, in a fixed priority order,
//! decides the piece: an apostrophe contraction; an optional non-letter,
//! non-number, non-newline character before a letter run; one to three
//! numbers; an optional space before a run of symbols and trailing
//! newlines; whitespace up to its last newline; a trailing whitespace run;
//! or any whitespace run. Every character falls into exactly one piece.

use vstd::prelude::*;
use crate::chars::{is_letter, is_number, is_white, char_is_letter, char_is_number, char_is_white};

verus! {

/// A character that is neither whitespace nor a letter nor a number.
pub open spec fn is_symbol(c: char) -> bool {
    !is_white(c) && !is_letter(c) && !is_number(c)
}

/// A contraction suffix of one letter, either case: s, d, m or t.
pub open spec fn contraction_one(c: char) -> bool {
    c == 's' || c == 'S' || c == 'd' || c == 'D' || c == 'm' || c == 'M' || c == 't' || c == 'T'
}

/// A contraction suffix of two letters, either case: ll, ve or re.
pub open spec fn contraction_two(a: char, b: char) -> bool {
    ||| ((a == 'l' || a == 'L') && (b == 'l' || b == 'L'))
    ||| ((a == 'v' || a == 'V') && (b == 'e' || b == 'E'))
    ||| ((a == 'r' || a == 'R') && (b == 'e' || b == 'E'))
}

/// The end of the letter run starting at `i`.
pub open spec fn letter_run_end(s: Seq<char>, i: int) -> int
    decreases s.len() - i when 0 <= i <= s.len()
{
    if 0 <= i < s.len() && is_letter(s[i]) {
        letter_run_end(s, i + 1)
    } else {
        i
    }
}

/// The end of the whitespace run starting at `i`.
pub open spec fn white_run_end(s: Seq<char>, i: int) -> int
    decreases s.len() - i when 0 <= i <= s.len()
{
    if 0 <= i < s.len() && is_white(s[i]) {
        white_run_end(s, i + 1)
    } else {
        i
    }
}

/// The end of the symbol run starting at `i`.
pub open spec fn symbol_run_end(s: Seq<char>, i: int) -> int
    decreases s.len() - i when 0 <= i <= s.len()
{
    if 0 <= i < s.len() && is_symbol(s[i]) {
        symbol_run_end(s, i + 1)
    } else {
        i
    }
}

/// The end of the newline run starting at `i`.
pub open spec fn newline_run_end(s: Seq<char>, i: int) -> int
    decreases s.len() - i when 0 <= i <= s.len()
{
    if 0 <= i < s.len() && (s[i] == '\r' || s[i] == '\n') {
        newline_run_end(s, i + 1)
    } else {
        i
    }
}

/// First rule: an apostrophe followed by a contraction suffix, the
/// one-letter suffixes tried before the two-letter ones.
pub open spec fn rule_contraction(s: Seq<char>, i: int) -> Option<int> {
    if s[i] == '\'' {
        if i + 1 < s.len() && contraction_one(s[i + 1]) {
            Some(i + 2)
        } else if i + 2 < s.len() && contraction_two(s[i + 1], s[i + 2]) {
            Some(i + 3)
        } else {
            None
        }
    } else {
        None
    }
}

/// Second rule: an optional character that is no letter, number or newline,
/// taken without backtracking, then one or more letters.
pub open spec fn rule_word(s: Seq<char>, i: int) -> Option<int> {
    let j = if !is_letter(s[i]) && !is_number(s[i]) && s[i] != '\r' && s[i] != '\n' {
        i + 1
    } else {
        i
    };
    if j < s.len() && is_letter(s[j]) {
        Some(letter_run_end(s, j))
    } else {
        None
    }
}

/// Third rule: one to three numbers.
pub open spec fn rule_numbers(s: Seq<char>, i: int) -> Option<int> {
    if is_number(s[i]) {
        if i + 1 < s.len() && is_number(s[i + 1]) {
            if i + 2 < s.len() && is_number(s[i + 2]) {
                Some(i + 3)
            } else {
                Some(i + 2)
            }
        } else {
            Some(i + 1)
        }
    } else {
        None
    }
}

/// Fourth rule: an optional space, then one or more symbols taken without
/// backtracking, then any trailing newlines.
pub open spec fn rule_symbols(s: Seq<char>, i: int) -> Option<int> {
    let j = if s[i] == ' ' && i + 1 < s.len() && is_symbol(s[i + 1]) {
        i + 1
    } else {
        i
    };
    if is_symbol(s[j]) {
        Some(newline_run_end(s, symbol_run_end(s, j)))
    } else {
        None
    }
}

/// The end of the match of the fifth rule inside the whitespace run
/// `[i, w)`: one past the last newline character in it.
pub open spec fn last_newline_end(s: Seq<char>, i: int, w: int) -> Option<int>
    decreases w - i when i <= w
{
    if w <= i {
        None
    } else if 0 <= w - 1 < s.len() && (s[w - 1] == '\r' || s[w - 1] == '\n') {
        Some(w)
    } else {
        last_newline_end(s, i, w - 1)
    }
}

/// Fifth rule: any whitespace, then one newline: the whitespace run is cut
/// after its last newline.
pub open spec fn rule_white_newline(s: Seq<char>, i: int) -> Option<int> {
    last_newline_end(s, i, white_run_end(s, i))
}

/// Sixth rule: whitespace not followed by anything else: a whitespace run
/// reaching the end of the text, or all but the last character of a run
/// of two or more.
pub open spec fn rule_white_end(s: Seq<char>, i: int) -> Option<int> {
    let w = white_run_end(s, i);
    if w <= i {
        None
    } else if w == s.len() {
        Some(w)
    } else if w - i >= 2 {
        Some(w - 1)
    } else {
        None
    }
}

/// Seventh rule: one or more whitespace characters.
pub open spec fn rule_white(s: Seq<char>, i: int) -> Option<int> {
    let w = white_run_end(s, i);
    if w > i {
        Some(w)
    } else {
        None
    }
}

/// The end chosen by the first matching rule at `i`, if any rule matches.
pub open spec fn raw_piece_end(s: Seq<char>, i: int) -> Option<int> {
    if rule_contraction(s, i) is Some {
        rule_contraction(s, i)
    } else if rule_word(s, i) is Some {
        rule_word(s, i)
    } else if rule_numbers(s, i) is Some {
        rule_numbers(s, i)
    } else if rule_symbols(s, i) is Some {
        rule_symbols(s, i)
    } else if rule_white_newline(s, i) is Some {
        rule_white_newline(s, i)
    } else if rule_white_end(s, i) is Some {
        rule_white_end(s, i)
    } else if rule_white(s, i) is Some {
        rule_white(s, i)
    } else {
        None
    }
}

/// The end of the piece starting at `i`: the first matching rule's end,
/// held inside the text. Since every character is a letter, a number,
/// whitespace or a symbol, some rule always matches and the fallback arm
/// never decides.
pub open spec fn piece_end(s: Seq<char>, i: int) -> int {
    let e = match raw_piece_end(s, i) {
        Some(e) => e,
        None => i + 1,
    };
    if i < e && e <= s.len() {
        e
    } else {
        i + 1
    }
}

/// The pieces of `s` from position `i` on: each piece runs from where the
/// one before it ended.
pub open spec fn spec_split(s: Seq<char>, i: int) -> Seq<(int, int)>
    decreases s.len() - i when 0 <= i
{
    if !(0 <= i < s.len()) {
        Seq::empty()
    } else {
        seq![(i, piece_end(s, i))] + spec_split(s, piece_end(s, i))
    }
}

/// Pieces cover the text: they are contiguous, non-empty, in order, the
/// first starts at the beginning and the last ends at the end.
pub proof fn lemma_split_covers(s: Seq<char>, i: int)
    requires
        0 <= i <= s.len(),
    ensures
        ({
            let ps = spec_split(s, i);
            &&& (i < s.len() ==> ps.len() > 0 && ps[0].0 == i && ps[ps.len() - 1].1 == s.len())
            &&& (i == s.len() ==> ps.len() == 0)
            &&& forall|k: int| 0 <= k < ps.len() ==> (#[trigger] ps[k]).0 < ps[k].1 <= s.len()
            &&& forall|k: int| 0 <= k < ps.len() - 1 ==> (#[trigger] ps[k]).1 == ps[k + 1].0
        }),
    decreases s.len() - i,
{
    if i < s.len() {
        let e = piece_end(s, i);
        lemma_split_covers(s, e);
        let ps = spec_split(s, i);
        let rest = spec_split(s, e);
        assert(ps == seq![(i, e)] + rest);
        assert(ps[0] == (i, e));
        assert forall|k: int| 0 <= k < ps.len() - 1 implies ps[k].1 == ps[k + 1].0 by {
            if k > 0 {
                assert(ps[k] == rest[k - 1]);
                assert(ps[k + 1] == rest[k]);
            } else {
                if rest.len() > 0 {
                    assert(ps[1] == rest[0]);
                }
            }
        }
    }
}

/// The piece list of an exec split, as pairs of mathematical offsets.
pub open spec fn pairs_view(ps: Seq<(usize, usize)>) -> Seq<(int, int)> {
    ps.map_values(|p: (usize, usize)| (p.0 as int, p.1 as int))
}

/// Exec form of `letter_run_end`.
fn letter_run(s: &[char], i: usize) -> (r: usize)
    requires
        i <= s@.len(),
    ensures
        r == letter_run_end(s@, i as int),
        i <= r <= s@.len(),
{
    let mut j = i;
    while j < s.len() && char_is_letter(s[j])
        invariant
            i <= j <= s@.len(),
            letter_run_end(s@, i as int) == letter_run_end(s@, j as int),
        decreases s@.len() - j,
    {
        j = j + 1;
    }
    j
}

/// Exec form of `white_run_end`.
fn white_run(s: &[char], i: usize) -> (r: usize)
    requires
        i <= s@.len(),
    ensures
        r == white_run_end(s@, i as int),
        i <= r <= s@.len(),
{
    let mut j = i;
    while j < s.len() && char_is_white(s[j])
        invariant
            i <= j <= s@.len(),
            white_run_end(s@, i as int) == white_run_end(s@, j as int),
        decreases s@.len() - j,
    {
        j = j + 1;
    }
    j
}

/// Exec form of `is_symbol`.
fn char_is_symbol(c: char) -> (r: bool)
    ensures
        r == is_symbol(c),
{
    !char_is_white(c) && !char_is_letter(c) && !char_is_number(c)
}

/// Exec form of `symbol_run_end`.
fn symbol_run(s: &[char], i: usize) -> (r: usize)
    requires
        i <= s@.len(),
    ensures
        r == symbol_run_end(s@, i as int),
        i <= r <= s@.len(),
{
    let mut j = i;
    while j < s.len() && char_is_symbol(s[j])
        invariant
            i <= j <= s@.len(),
            symbol_run_end(s@, i as int) == symbol_run_end(s@, j as int),
        decreases s@.len() - j,
    {
        j = j + 1;
    }
    j
}

/// Exec form of `newline_run_end`.
fn newline_run(s: &[char], i: usize) -> (r: usize)
    requires
        i <= s@.len(),
    ensures
        r == newline_run_end(s@, i as int),
        i <= r <= s@.len(),
{
    let mut j = i;
    while j < s.len() && (s[j] == '\r' || s[j] == '\n')
        invariant
            i <= j <= s@.len(),
            newline_run_end(s@, i as int) == newline_run_end(s@, j as int),
        decreases s@.len() - j,
    {
        j = j + 1;
    }
    j
}

/// The end of the piece starting at `i`: the first matching rule decides.
pub fn next_piece_end(s: &[char], i: usize) -> (r: usize)
    requires
        i < s@.len(),
    ensures
        r == piece_end(s@, i as int),
        i < r <= s@.len(),
{
    let n = s.len();
    // first rule: contraction
    if s[i] == '\'' {
        if i + 1 < n {
            if contraction_one_exec(s[i + 1]) {
                return i + 2;
            }
            if i + 2 < n && contraction_two_exec(s[i + 1], s[i + 2]) {
                return i + 3;
            }
        }
    }
    proof {
        assert(rule_contraction(s@, i as int) is None);
    }
    // second rule: optional prefix, then letters
    let cl = char_is_letter(s[i]);
    let cn = char_is_number(s[i]);
    let j: usize = if !cl && !cn && s[i] != '\r' && s[i] != '\n' {
        i + 1
    } else {
        i
    };
    if j < n && char_is_letter(s[j]) {
        let e = letter_run(s, j + 1);
        proof {
            assert(letter_run_end(s@, j as int) == letter_run_end(s@, j + 1));
            assert(rule_word(s@, i as int) == Some(e as int));
        }
        return e;
    }
    proof {
        assert(rule_word(s@, i as int) is None);
    }
    // third rule: one to three numbers
    if cn {
        if i + 1 < n && char_is_number(s[i + 1]) {
            if i + 2 < n && char_is_number(s[i + 2]) {
                return i + 3;
            }
            return i + 2;
        }
        return i + 1;
    }
    proof {
        assert(rule_numbers(s@, i as int) is None);
    }
    // fourth rule: optional space, symbols, trailing newlines
    let j2: usize = if s[i] == ' ' && i + 1 < n && char_is_symbol(s[i + 1]) {
        i + 1
    } else {
        i
    };
    if char_is_symbol(s[j2]) {
        let se = symbol_run(s, j2 + 1);
        let e = newline_run(s, se);
        proof {
            assert(symbol_run_end(s@, j2 as int) == symbol_run_end(s@, j2 + 1));
            assert(rule_symbols(s@, i as int) == Some(e as int));
        }
        return e;
    }
    proof {
        assert(rule_symbols(s@, i as int) is None);
    }
    // fifth rule: whitespace up to its last newline
    let w = white_run(s, i);
    let mut k = w;
    while k > i && !(s[k - 1] == '\r' || s[k - 1] == '\n')
        invariant
            i < s@.len(),
            i <= k <= w <= s@.len(),
            w == white_run_end(s@, i as int),
            last_newline_end(s@, i as int, white_run_end(s@, i as int)) == last_newline_end(
                s@,
                i as int,
                k as int,
            ),
        decreases k,
    {
        k = k - 1;
    }
    if k > i {
        proof {
            assert(rule_white_newline(s@, i as int) == Some(k as int));
        }
        return k;
    }
    proof {
        assert(rule_white_newline(s@, i as int) is None);
    }
    // sixth and seventh rules: whitespace runs
    if w > i {
        if w == n {
            return w;
        }
        if w - i >= 2 {
            return w - 1;
        }
        proof {
            assert(rule_white_end(s@, i as int) is None);
            assert(rule_white(s@, i as int) == Some(w as int));
        }
        return w;
    }
    proof {
        assert(rule_white_end(s@, i as int) is None);
        assert(rule_white(s@, i as int) is None);
        assert(raw_piece_end(s@, i as int) is None);
    }
    i + 1
}

/// Exec form of `contraction_one`.
fn contraction_one_exec(c: char) -> (r: bool)
    ensures
        r == contraction_one(c),
{
    c == 's' || c == 'S' || c == 'd' || c == 'D' || c == 'm' || c == 'M' || c == 't' || c == 'T'
}

/// Exec form of `contraction_two`.
fn contraction_two_exec(a: char, b: char) -> (r: bool)
    ensures
        r == contraction_two(a, b),
{
    ((a == 'l' || a == 'L') && (b == 'l' || b == 'L')) || ((a == 'v' || a == 'V') && (b == 'e' || b
        == 'E')) || ((a == 'r' || a == 'R') && (b == 'e' || b == 'E'))
}

/// Splits a text into its pieces, in order.
pub fn split_pieces(s: &[char]) -> (r: Vec<(usize, usize)>)
    ensures
        pairs_view(r@) == spec_split(s@, 0),
{
    let mut out: Vec<(usize, usize)> = Vec::new();
    let mut i: usize = 0;
    while i < s.len()
        invariant
            i <= s@.len(),
            spec_split(s@, 0) == pairs_view(out@) + spec_split(s@, i as int),
        decreases s@.len() - i,
    {
        let e = next_piece_end(s, i);
        let ghost prev = out@;
        out.push((i, e));
        proof {
            assert(spec_split(s@, i as int) == seq![(i as int, e as int)] + spec_split(
                s@,
                e as int,
            ));
            assert(pairs_view(out@) =~= pairs_view(prev) + seq![(i as int, e as int)]);
            assert(pairs_view(prev) + spec_split(s@, i as int) =~= pairs_view(out@) + spec_split(
                s@,
                e as int,
            ));
        }
        i = e;
    }
    proof {
        assert(spec_split(s@, i as int) =~= Seq::<(int, int)>::empty());
        assert(pairs_view(out@) =~= spec_split(s@, 0));
    }
    out
}

} // verus!
