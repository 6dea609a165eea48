//! Characters and bytes: Unicode character classes, conversion between
//! text and its UTF-8 bytes, and conversion of decoded bytes back to text.

use vstd::prelude::*;
use vstd::string::StrSliceExecFns;
use vstd::utf8::{
    encode_scalar, encode_utf8, decode_utf8, valid_utf8, has_width_1_encoding,
    has_width_2_encoding, has_width_3_encoding, char_is_scalar,
};

verus! {

/// Whether `c` is a Unicode letter.
pub uninterp spec fn is_letter(c: char) -> bool;

/// Whether `c` is a Unicode number.
pub uninterp spec fn is_number(c: char) -> bool;

/// Whether `c` is Unicode whitespace.
pub uninterp spec fn is_white(c: char) -> bool;

/// Relies on char::is_alphabetic: the Unicode letter classes, a function
/// of the character alone.
#[verifier::external_body]
pub fn char_is_letter(c: char) -> (r: bool)
    ensures
        r == is_letter(c),
{
    c.is_alphabetic()
}

/// Relies on char::is_numeric: the Unicode number classes, a function of
/// the character alone.
#[verifier::external_body]
pub fn char_is_number(c: char) -> (r: bool)
    ensures
        r == is_number(c),
{
    c.is_numeric()
}

/// Relies on char::is_whitespace: the Unicode white-space property, a
/// function of the character alone.
#[verifier::external_body]
pub fn char_is_white(c: char) -> (r: bool)
    ensures
        r == is_white(c),
{
    c.is_whitespace()
}

/// Appends the UTF-8 encoding of one character.
pub fn push_char_utf8(out: &mut Vec<u8>, c: char)
    ensures
        final(out)@ == old(out)@ + encode_scalar(c as u32),
{
    let v = c as u32;
    proof {
        char_is_scalar(c);
    }
    if v <= 0x7F {
        proof {
            assert(v & 0x7F <= 0x7F) by (bit_vector);
        }
        out.push((v & 0x7F) as u8);
        proof {
            assert(final(out)@ =~= old(out)@ + encode_scalar(c as u32));
        }
    } else if v <= 0x7FF {
        proof {
            assert((v >> 6) & 0x1F <= 0x1F) by (bit_vector);
            assert(v & 0x3F <= 0x3F) by (bit_vector);
        }
        out.push(0xC0 | ((v >> 6) & 0x1F) as u8);
        out.push(0x80 | (v & 0x3F) as u8);
        proof {
            assert(final(out)@ =~= old(out)@ + encode_scalar(c as u32));
        }
    } else if v <= 0xFFFF {
        proof {
            assert((v >> 12) & 0x0F <= 0x0F) by (bit_vector);
            assert((v >> 6) & 0x3F <= 0x3F) by (bit_vector);
            assert(v & 0x3F <= 0x3F) by (bit_vector);
            assert(has_width_3_encoding(v));
        }
        out.push(0xE0 | ((v >> 12) & 0x0F) as u8);
        out.push(0x80 | ((v >> 6) & 0x3F) as u8);
        out.push(0x80 | (v & 0x3F) as u8);
        proof {
            assert(final(out)@ =~= old(out)@ + encode_scalar(c as u32));
        }
    } else {
        proof {
            assert((v >> 18) & 0x7 <= 0x7) by (bit_vector);
            assert((v >> 12) & 0x3F <= 0x3F) by (bit_vector);
            assert((v >> 6) & 0x3F <= 0x3F) by (bit_vector);
            assert(v & 0x3F <= 0x3F) by (bit_vector);
        }
        out.push(0xF0 | ((v >> 18) & 0x7) as u8);
        out.push(0x80 | ((v >> 12) & 0x3F) as u8);
        out.push(0x80 | ((v >> 6) & 0x3F) as u8);
        out.push(0x80 | (v & 0x3F) as u8);
        proof {
            assert(final(out)@ =~= old(out)@ + encode_scalar(c as u32));
        }
    }
}

/// UTF-8 encoding distributes over concatenation of character sequences.
pub proof fn lemma_encode_utf8_concat(a: Seq<char>, b: Seq<char>)
    ensures
        encode_utf8(a + b) == encode_utf8(a) + encode_utf8(b),
    decreases a.len(),
{
    if a.len() == 0 {
        assert(a + b =~= b);
        assert(encode_utf8(a) + encode_utf8(b) =~= encode_utf8(b));
    } else {
        assert((a + b).drop_first() =~= a.drop_first() + b);
        lemma_encode_utf8_concat(a.drop_first(), b);
        assert(encode_utf8(a + b) =~= encode_utf8(a) + encode_utf8(b));
    }
}

/// A character sequence needs at least one and at most four bytes each.
pub proof fn lemma_encode_utf8_len(s: Seq<char>)
    ensures
        s.len() <= encode_utf8(s).len() <= 4 * s.len(),
    decreases s.len(),
{
    if s.len() > 0 {
        lemma_encode_utf8_len(s.drop_first());
    }
}

/// The UTF-8 bytes of a character slice.
pub fn chars_to_bytes(s: &[char]) -> (r: Vec<u8>)
    ensures
        r@ == encode_utf8(s@),
{
    let mut out: Vec<u8> = Vec::new();
    let mut i: usize = 0;
    while i < s.len()
        invariant
            i <= s@.len(),
            out@ == encode_utf8(s@.subrange(0, i as int)),
        decreases s@.len() - i,
    {
        push_char_utf8(&mut out, s[i]);
        proof {
            let pre = s@.subrange(0, i as int);
            assert(s@.subrange(0, i + 1) =~= pre + seq![s@[i as int]]);
            lemma_encode_utf8_concat(pre, seq![s@[i as int]]);
            let single = seq![s@[i as int]];
            assert(single[0] == s@[i as int]);
            assert(single.drop_first() =~= Seq::<char>::empty());
            assert(encode_utf8(single.drop_first()) =~= Seq::<u8>::empty());
            assert(encode_utf8(single) =~= encode_scalar(s@[i as int] as u32));
        }
        i = i + 1;
    }
    proof {
        assert(s@.subrange(0, s@.len() as int) =~= s@);
    }
    out
}

/// The characters of a text, in order.
pub fn str_chars(s: &str) -> (r: Vec<char>)
    ensures
        r@ == s@,
{
    let n = s.unicode_len();
    let mut out: Vec<char> = Vec::new();
    let mut i: usize = 0;
    while i < n
        invariant
            n == s@.len(),
            i <= n,
            out@ == s@.subrange(0, i as int),
        decreases n - i,
    {
        let c = s.get_char(i);
        out.push(c);
        proof {
            assert(s@.subrange(0, i + 1) =~= s@.subrange(0, i as int).push(s@[i as int]));
        }
        i = i + 1;
    }
    proof {
        assert(s@.subrange(0, s@.len() as int) =~= s@);
    }
    out
}

/// Relies on String::from_utf8: succeeds exactly on valid UTF-8 input and
/// returns a string holding those very bytes.
#[verifier::external_body]
pub fn bytes_to_string(v: Vec<u8>) -> (r: Option<String>)
    ensures
        r is Some <==> valid_utf8(v@),
        r is Some ==> r.unwrap()@ == decode_utf8(v@),
{
    match String::from_utf8(v) {
        Ok(s) => Some(s),
        Err(_) => None,
    }
}

} // verus!
