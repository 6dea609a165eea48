//! Parsing of vocabulary file lines: two whitespace-separated fields, a
//! base64 byte sequence and a decimal rank. A line with any other field
//! count is skipped; a field that fails to decode or parse is an error.

use vstd::prelude::*;
use base64::Engine;
use crate::chars::{is_white, char_is_white, str_chars};

verus! {

/// What standard base64 decoding yields on the given text, if it decodes.
pub uninterp spec fn b64_decoded(s: Seq<char>) -> Option<Seq<u8>>;

/// Relies on base64's standard engine (standard alphabet, with padding):
/// the result is a function of the input text alone.
#[verifier::external_body]
fn b64_decode_chars(s: &[char]) -> (r: Option<Vec<u8>>)
    ensures
        (r is Some) == (b64_decoded(s@) is Some),
        r is Some ==> r.unwrap()@ == b64_decoded(s@)->Some_0,
{
    let text: String = s.iter().collect();
    match base64::engine::general_purpose::STANDARD.decode(text) {
        Ok(v) => Some(v),
        Err(_) => None,
    }
}

/// A decimal digit.
pub open spec fn is_digit(c: char) -> bool {
    '0' <= c && c <= '9'
}

/// The value of a digit sequence read in base ten.
pub open spec fn digits_val(s: Seq<char>) -> int
    decreases s.len(),
{
    if s.len() == 0 {
        0
    } else {
        digits_val(s.drop_last()) * 10 + (s.last() as u32 - '0' as u32)
    }
}

/// The number a field parses to: all digits, at least one, fitting `u32`.
pub open spec fn parsed_u32(s: Seq<char>) -> Option<u32> {
    if s.len() > 0 && (forall|k: int| 0 <= k < s.len() ==> is_digit(s[k])) && digits_val(s)
        <= u32::MAX {
        Some(digits_val(s) as u32)
    } else {
        None
    }
}

/// A digit sequence's value is non-negative.
proof fn lemma_digits_val_nonneg(s: Seq<char>)
    requires
        forall|k: int| 0 <= k < s.len() ==> is_digit(s[k]),
    ensures
        digits_val(s) >= 0,
    decreases s.len(),
{
    if s.len() > 0 {
        lemma_digits_val_nonneg(s.drop_last());
    }
}

/// Each further digit can only grow the value.
proof fn lemma_digits_val_prefix(s: Seq<char>, k: int)
    requires
        forall|j: int| 0 <= j < s.len() ==> is_digit(s[j]),
        0 <= k <= s.len(),
    ensures
        digits_val(s.subrange(0, k)) <= digits_val(s),
    decreases s.len() - k,
{
    if k < s.len() {
        lemma_digits_val_prefix(s, k + 1);
        let p = s.subrange(0, k + 1);
        assert(p.drop_last() =~= s.subrange(0, k));
        lemma_digits_val_nonneg(p.drop_last());
        assert(digits_val(s.subrange(0, k)) <= digits_val(p));
    } else {
        assert(s.subrange(0, k) =~= s);
    }
}

/// Reads a decimal field as a number.
pub fn parse_u32(s: &[char]) -> (r: Option<u32>)
    ensures
        r == parsed_u32(s@),
{
    if s.len() == 0 {
        return None;
    }
    let mut val: u32 = 0;
    let mut k: usize = 0;
    while k < s.len()
        invariant
            0 < s@.len() <= usize::MAX,
            k <= s@.len(),
            forall|j: int| 0 <= j < k ==> is_digit(s@[j]),
            val == digits_val(s@.subrange(0, k as int)),
        decreases s@.len() - k,
    {
        let c = s[k];
        if !(c >= '0' && c <= '9') {
            return None;
        }
        let d: u32 = c as u32 - 48;
        proof {
            assert(s@.subrange(0, k + 1).drop_last() =~= s@.subrange(0, k as int));
            assert(s@.subrange(0, k + 1).last() == s@[k as int]);
        }
        if val > (u32::MAX - d) / 10 {
            proof {
                assert(digits_val(s@.subrange(0, k + 1)) == val * 10 + d);
                assert(digits_val(s@.subrange(0, k + 1)) > u32::MAX);
                if forall|j: int| 0 <= j < s@.len() ==> is_digit(s@[j]) {
                    lemma_digits_val_prefix(s@, k + 1);
                }
                assert(parsed_u32(s@) is None);
            }
            return None;
        }
        val = val * 10 + d;
        k = k + 1;
    }
    proof {
        assert(s@.subrange(0, s@.len() as int) =~= s@);
    }
    Some(val)
}

/// The end of the non-whitespace run starting at `i`.
pub open spec fn word_end(s: Seq<char>, i: int) -> int
    decreases s.len() - i when 0 <= i <= s.len()
{
    if 0 <= i < s.len() && !is_white(s[i]) {
        word_end(s, i + 1)
    } else {
        i
    }
}

/// The whitespace-separated fields of `s` from position `i` on.
pub open spec fn spec_fields(s: Seq<char>, i: int) -> Seq<Seq<char>>
    decreases s.len() - i when 0 <= i
{
    if !(0 <= i < s.len()) {
        Seq::empty()
    } else if is_white(s[i]) {
        spec_fields(s, i + 1)
    } else {
        let e = word_end(s, i);
        let e2 = if i < e && e <= s.len() {
            e
        } else {
            i + 1
        };
        seq![s.subrange(i, e2)] + spec_fields(s, e2)
    }
}

/// Splits a line into its whitespace-separated fields.
fn split_fields(s: &[char]) -> (r: Vec<Vec<char>>)
    ensures
        r@.map_values(|f: Vec<char>| f@) == spec_fields(s@, 0),
{
    let mut out: Vec<Vec<char>> = Vec::new();
    let mut i: usize = 0;
    while i < s.len()
        invariant
            i <= s@.len(),
            spec_fields(s@, 0) == out@.map_values(|f: Vec<char>| f@) + spec_fields(s@, i as int),
        decreases s@.len() - i,
    {
        if char_is_white(s[i]) {
            i = i + 1;
        } else {
            let mut e = i + 1;
            proof {
                assert(word_end(s@, i as int) == word_end(s@, i + 1));
            }
            while e < s.len() && !char_is_white(s[e])
                invariant
                    i < e <= s@.len(),
                    word_end(s@, i as int) == word_end(s@, e as int),
                decreases s@.len() - e,
            {
                e = e + 1;
            }
            let field = vstd::slice::slice_to_vec(vstd::slice::slice_subrange(s, i, e));
            let ghost prev = out@;
            out.push(field);
            proof {
                assert(spec_fields(s@, i as int) == seq![s@.subrange(i as int, e as int)]
                    + spec_fields(s@, e as int));
                assert(out@.map_values(|f: Vec<char>| f@) =~= prev.map_values(|f: Vec<char>| f@)
                    + seq![s@.subrange(i as int, e as int)]);
                assert(prev.map_values(|f: Vec<char>| f@) + spec_fields(s@, i as int)
                    =~= out@.map_values(|f: Vec<char>| f@) + spec_fields(s@, e as int));
            }
            i = e;
        }
    }
    proof {
        assert(spec_fields(s@, i as int) =~= Seq::<Seq<char>>::empty());
        assert(out@.map_values(|f: Vec<char>| f@) =~= spec_fields(s@, 0));
    }
    out
}

/// Why a well-formed two-field line was rejected.
#[derive(Clone, Copy, Debug, PartialEq, Eq, Structural)]
pub enum LoadError {
    /// The first field is not valid base64.
    BadBase64,
    /// The second field is not a decimal number fitting a rank.
    BadRank,
}

/// What one line of a vocabulary file contributes.
#[derive(Debug, PartialEq, Eq)]
pub enum LineParse {
    /// A byte sequence with its rank.
    Entry(Vec<u8>, u32),
    /// A line with a field count other than two, skipped.
    Skip,
}

/// Reads one line of a vocabulary file: two whitespace-separated fields
/// give an entry, any other field count is skipped, and a two-field line
/// whose fields do not decode or parse is an error.
pub fn parse_vocab_line(line: &str) -> (r: Result<LineParse, LoadError>)
    ensures
        ({
            let fs = spec_fields(line@, 0);
            match r {
                Ok(LineParse::Skip) => fs.len() != 2,
                Ok(LineParse::Entry(tok, id)) => {
                    &&& fs.len() == 2
                    &&& b64_decoded(fs[0]) == Some(tok@)
                    &&& parsed_u32(fs[1]) == Some(id)
                },
                Err(LoadError::BadBase64) => fs.len() == 2 && b64_decoded(fs[0]) is None,
                Err(LoadError::BadRank) => {
                    &&& fs.len() == 2
                    &&& b64_decoded(fs[0]) is Some
                    &&& parsed_u32(fs[1]) is None
                },
            }
        }),
{
    let cs = str_chars(line);
    let fields = split_fields(cs.as_slice());
    let ghost fs = spec_fields(line@, 0);
    if fields.len() != 2 {
        return Ok(LineParse::Skip);
    }
    proof {
        assert(fs[0] == fields@.map_values(|f: Vec<char>| f@)[0]);
        assert(fs[1] == fields@.map_values(|f: Vec<char>| f@)[1]);
    }
    let tok = match b64_decode_chars(fields[0].as_slice()) {
        Some(t) => t,
        None => {
            return Err(LoadError::BadBase64);
        },
    };
    let id = match parse_u32(fields[1].as_slice()) {
        Some(v) => v,
        None => {
            return Err(LoadError::BadRank);
        },
    };
    Ok(LineParse::Entry(tok, id))
}

} // verus!
