//! The encoder and decoder: text to ranks and ranks back to text.
//!
//! Encoding carves reserved literals out of the text, splits what lies
//! between them into pieces, and emits each piece's rank, or its byte-pair
//! merge where the piece itself is no vocabulary entry. Decoding maps each
//! rank back to its bytes and reads the concatenation as text.

use vstd::prelude::*;
use vstd::slice::slice_subrange;
use vstd::utf8::{encode_utf8, decode_utf8, valid_utf8};
use crate::vocab::{Vocabulary, VocabError, find_rank, find_bytes};
use crate::scanner::{SpecialTable, next_special_from, find_special, lemma_next_special_bounds};
use crate::merge::spec_byte_pair_encode;
use crate::pretoken::piece_end;
use crate::chars::{str_chars, chars_to_bytes, bytes_to_string, lemma_encode_utf8_len};

verus! {

/// Why a rank sequence could not be decoded.
#[derive(Clone, Copy, Debug, PartialEq, Eq, Structural)]
pub enum DecodeError {
    /// A rank names neither a vocabulary entry nor a reserved literal.
    InvalidToken,
    /// The decoded bytes are not valid text.
    InvalidText,
}

/// The ranks of one piece: its own rank where the piece is an entry, its
/// byte-pair merge otherwise.
pub open spec fn spec_encode_piece(voc: Seq<(Seq<u8>, u32)>, piece: Seq<u8>) -> Seq<u32> {
    match find_rank(voc, piece) {
        Some(r) => seq![r],
        None => if piece.len() >= 2 {
            spec_byte_pair_encode(voc, piece)
        } else {
            Seq::empty()
        },
    }
}

/// The ranks of a chunk from position `i` on: piece by piece, in order.
pub open spec fn spec_encode_chunk_from(
    voc: Seq<(Seq<u8>, u32)>,
    chunk: Seq<char>,
    i: int,
) -> Seq<u32>
    decreases chunk.len() - i when 0 <= i
{
    if !(0 <= i < chunk.len()) {
        Seq::empty()
    } else {
        spec_encode_piece(voc, encode_utf8(chunk.subrange(i, piece_end(chunk, i))))
            + spec_encode_chunk_from(voc, chunk, piece_end(chunk, i))
    }
}

/// The ranks of a text containing no reserved literals.
pub open spec fn spec_encode_no_special(voc: Seq<(Seq<u8>, u32)>, text: Seq<char>) -> Seq<u32> {
    spec_encode_chunk_from(voc, text, 0)
}

/// The ranks of a text from position `i` on: the span up to the next
/// reserved literal is encoded piece by piece, the literal's own rank
/// follows, and the rest continues past it.
pub open spec fn spec_encode_from(
    voc: Seq<(Seq<u8>, u32)>,
    table: Seq<(Seq<char>, u32)>,
    s: Seq<char>,
    i: int,
) -> Seq<u32>
    decreases s.len() - i when 0 <= i
{
    match next_special_from(table, s, i) {
        Some(pt) => {
            if i <= pt.0 && 0 <= pt.1 < table.len() && table[pt.1].0.len() > 0 && pt.0
                + table[pt.1].0.len() <= s.len() {
                spec_encode_no_special(voc, s.subrange(i, pt.0)) + seq![table[pt.1].1]
                    + spec_encode_from(voc, table, s, pt.0 + table[pt.1].0.len())
            } else {
                spec_encode_no_special(voc, s.subrange(i, s.len() as int))
            }
        },
        None => if i <= s.len() {
            spec_encode_no_special(voc, s.subrange(i, s.len() as int))
        } else {
            Seq::empty()
        },
    }
}

/// The ranks of a whole text, reserved literals carved out.
pub open spec fn spec_encode(
    voc: Seq<(Seq<u8>, u32)>,
    table: Seq<(Seq<char>, u32)>,
    s: Seq<char>,
) -> Seq<u32> {
    spec_encode_from(voc, table, s, 0)
}

/// The bytes one rank decodes to: the vocabulary's entry first, else the
/// reserved literal's text bytes.
pub open spec fn spec_rank_bytes(
    voc: Seq<(Seq<u8>, u32)>,
    table: Seq<(Seq<char>, u32)>,
    r: u32,
) -> Option<Seq<u8>> {
    match find_bytes(voc, r) {
        Some(bs) => Some(bs),
        None => match find_special(table, r) {
            Some(cs) => Some(encode_utf8(cs)),
            None => None,
        },
    }
}

/// The bytes a rank sequence decodes to, or nothing if some rank is unknown.
pub open spec fn spec_decode_bytes(
    voc: Seq<(Seq<u8>, u32)>,
    table: Seq<(Seq<char>, u32)>,
    ranks: Seq<u32>,
) -> Option<Seq<u8>>
    decreases ranks.len(),
{
    if ranks.len() == 0 {
        Some(Seq::empty())
    } else {
        match spec_rank_bytes(voc, table, ranks[0]) {
            None => None,
            Some(b) => match spec_decode_bytes(voc, table, ranks.drop_first()) {
                None => None,
                Some(rest) => Some(b + rest),
            },
        }
    }
}

/// Appends a slice's elements.
fn append_all<T: Copy>(dst: &mut Vec<T>, src: &[T])
    ensures
        final(dst)@ == old(dst)@ + src@,
{
    let mut k: usize = 0;
    while k < src.len()
        invariant
            k <= src@.len(),
            dst@ == old(dst)@ + src@.subrange(0, k as int),
        decreases src@.len() - k,
    {
        dst.push(src[k]);
        proof {
            assert(src@.subrange(0, k + 1) =~= src@.subrange(0, k as int).push(src@[k as int]));
            assert(old(dst)@ + src@.subrange(0, k + 1) =~= (old(dst)@ + src@.subrange(
                0,
                k as int,
            )).push(src@[k as int]));
        }
        k = k + 1;
    }
    proof {
        assert(src@.subrange(0, src@.len() as int) =~= src@);
    }
}

/// The tokenization engine: a vocabulary and a reserved-literal table.
pub struct Encoder {
    pub vocab: Vocabulary,
    pub specials: SpecialTable,
}

impl Encoder {
    /// The engine invariant: both parts well-formed, and no reserved rank
    /// reachable through the vocabulary.
    pub open spec fn wf(&self) -> bool {
        &&& self.vocab.wf()
        &&& self.specials.wf()
        &&& forall|t: int|
            0 <= t < self.specials@.len() ==> find_bytes(
                self.vocab@,
                (#[trigger] self.specials@[t]).1,
            ) is None
    }

    /// Joins a vocabulary and a reserved-literal table, rejecting a table
    /// whose rank is also a vocabulary rank.
    pub fn new(vocab: Vocabulary, specials: SpecialTable) -> (r: Result<Encoder, VocabError>)
        requires
            vocab.wf(),
            specials.wf(),
        ensures
            match r {
                Ok(e) => {
                    &&& e.wf()
                    &&& e.vocab@ == vocab@
                    &&& e.specials@ == specials@
                },
                Err(er) => {
                    &&& er == VocabError::DuplicateRank
                    &&& exists|t: int|
                        0 <= t < specials@.len() && find_bytes(
                            vocab@,
                            (#[trigger] specials@[t]).1,
                        ) is Some
                },
            },
    {
        let n = specials.num_tokens();
        let mut t: usize = 0;
        while t < n
            invariant
                vocab.wf(),
                specials.wf(),
                n == specials@.len(),
                t <= n,
                forall|u: int|
                    0 <= u < t ==> find_bytes(vocab@, (#[trigger] specials@[u]).1) is None,
            decreases n - t,
        {
            let rk = specials.token_rank(t);
            match vocab.bytes_of(rk) {
                Some(_) => {
                    return Err(VocabError::DuplicateRank);
                },
                None => {},
            }
            t = t + 1;
        }
        Ok(Encoder { vocab, specials })
    }

    /// Encodes one chunk of characters, piece by piece.
    fn encode_chunk(&self, chunk: &[char]) -> (r: Vec<u32>)
        requires
            self.wf(),
            4 * chunk@.len() < usize::MAX,
        ensures
            r@ == spec_encode_no_special(self.vocab@, chunk@),
    {
        let ghost voc = self.vocab@;
        let mut out: Vec<u32> = Vec::new();
        let mut i: usize = 0;
        while i < chunk.len()
            invariant
                self.wf(),
                voc == self.vocab@,
                4 * chunk@.len() < usize::MAX,
                i <= chunk@.len(),
                spec_encode_chunk_from(voc, chunk@, 0) == out@ + spec_encode_chunk_from(
                    voc,
                    chunk@,
                    i as int,
                ),
            decreases chunk@.len() - i,
        {
            let e = crate::pretoken::next_piece_end(chunk, i);
            let span = slice_subrange(chunk, i, e);
            let bytes = chars_to_bytes(span);
            let ghost piece = encode_utf8(chunk@.subrange(i as int, e as int));
            proof {
                lemma_encode_utf8_len(chunk@.subrange(i as int, e as int));
            }
            let ghost prev = out@;
            match self.vocab.lookup(bytes.as_slice()) {
                Some(rk) => {
                    out.push(rk);
                    proof {
                        assert(out@ =~= prev + spec_encode_piece(voc, piece));
                    }
                },
                None => {
                    proof {
                        if piece.len() == 1 {
                            assert(piece =~= seq![piece[0]]);
                            assert(find_rank(voc, seq![piece[0]]) is Some);
                            assert(false);
                        }
                    }
                    let ranks = self.vocab.byte_pair_encode(bytes.as_slice());
                    append_all(&mut out, ranks.as_slice());
                    proof {
                        assert(out@ =~= prev + spec_encode_piece(voc, piece));
                    }
                },
            }
            proof {
                assert(spec_encode_chunk_from(voc, chunk@, i as int) == spec_encode_piece(
                    voc,
                    piece,
                ) + spec_encode_chunk_from(voc, chunk@, e as int));
                assert(prev + spec_encode_chunk_from(voc, chunk@, i as int) =~= out@
                    + spec_encode_chunk_from(voc, chunk@, e as int));
            }
            i = e;
        }
        proof {
            assert(spec_encode_chunk_from(voc, chunk@, i as int) =~= Seq::<u32>::empty());
            assert(out@ =~= spec_encode_chunk_from(voc, chunk@, 0));
        }
        out
    }

    /// Encodes a text as if it held no reserved literals: every piece of it
    /// goes through the vocabulary, reserved literals included.
    pub fn encode_no_special_tokens(&self, text: &str) -> (r: Vec<u32>)
        requires
            self.wf(),
            4 * text@.len() < usize::MAX,
        ensures
            r@ == spec_encode_no_special(self.vocab@, text@),
    {
        let cs = str_chars(text);
        self.encode_chunk(cs.as_slice())
    }

    /// Encodes a text: each reserved literal becomes its own rank, and the
    /// spans between them are encoded piece by piece. Reserved literals
    /// never merge with their surroundings.
    pub fn encode(&self, text: &str) -> (r: Vec<u32>)
        requires
            self.wf(),
            4 * text@.len() < usize::MAX,
        ensures
            r@ == spec_encode(self.vocab@, self.specials@, text@),
    {
        let ghost voc = self.vocab@;
        let ghost tab = self.specials@;
        let cs = str_chars(text);
        let n = cs.len();
        let mut out: Vec<u32> = Vec::new();
        let mut i: usize = 0;
        let mut done = false;
        while !done
            invariant
                self.wf(),
                voc == self.vocab@,
                tab == self.specials@,
                cs@ == text@,
                n == cs@.len(),
                4 * cs@.len() < usize::MAX,
                i <= n,
                !done ==> spec_encode_from(voc, tab, cs@, 0) == out@ + spec_encode_from(
                    voc,
                    tab,
                    cs@,
                    i as int,
                ),
                done ==> spec_encode_from(voc, tab, cs@, 0) == out@,
            decreases (if done {
                0int
            } else {
                cs@.len() - i + 1
            }),
        {
            match self.specials.find_next(cs.as_slice(), i) {
                Some(pt) => {
                    let p = pt.0;
                    let t = pt.1;
                    proof {
                        lemma_next_special_bounds(tab, cs@, i as int);
                    }
                    let chunk = slice_subrange(cs.as_slice(), i, p);
                    let cr = self.encode_chunk(chunk);
                    let ghost prev = out@;
                    append_all(&mut out, cr.as_slice());
                    out.push(self.specials.token_rank(t));
                    let tl = self.specials.token_len(t);
                    proof {
                        assert(tab[t as int].0.len() > 0);
                        assert(spec_encode_from(voc, tab, cs@, i as int) == spec_encode_no_special(
                            voc,
                            cs@.subrange(i as int, p as int),
                        ) + seq![tab[t as int].1] + spec_encode_from(
                            voc,
                            tab,
                            cs@,
                            p + tab[t as int].0.len(),
                        ));
                        assert(prev + spec_encode_from(voc, tab, cs@, i as int) =~= out@
                            + spec_encode_from(voc, tab, cs@, p + tl));
                    }
                    i = p + tl;
                },
                None => {
                    let chunk = slice_subrange(cs.as_slice(), i, n);
                    let cr = self.encode_chunk(chunk);
                    append_all(&mut out, cr.as_slice());
                    proof {
                        assert(spec_encode_from(voc, tab, cs@, i as int) == spec_encode_no_special(
                            voc,
                            cs@.subrange(i as int, cs@.len() as int),
                        ));
                        assert(spec_encode_from(voc, tab, cs@, 0) =~= out@);
                    }
                    done = true;
                },
            }
        }
        out
    }

    /// Decodes a rank sequence back to text: each rank's bytes, vocabulary
    /// entries first and reserved literals second, concatenated and read as
    /// text. An unknown rank or invalid text is reported, never guessed at.
    pub fn decode(&self, ranks: &[u32]) -> (r: Result<String, DecodeError>)
        requires
            self.wf(),
        ensures
            match r {
                Ok(s) => {
                    &&& spec_decode_bytes(self.vocab@, self.specials@, ranks@) is Some
                    &&& valid_utf8(spec_decode_bytes(self.vocab@, self.specials@, ranks@)->Some_0)
                    &&& s@ == decode_utf8(
                        spec_decode_bytes(self.vocab@, self.specials@, ranks@)->Some_0,
                    )
                },
                Err(DecodeError::InvalidToken) => spec_decode_bytes(
                    self.vocab@,
                    self.specials@,
                    ranks@,
                ) is None,
                Err(DecodeError::InvalidText) => {
                    &&& spec_decode_bytes(self.vocab@, self.specials@, ranks@) is Some
                    &&& !valid_utf8(spec_decode_bytes(self.vocab@, self.specials@, ranks@)->Some_0)
                },
            },
    {
        let ghost voc = self.vocab@;
        let ghost tab = self.specials@;
        let mut bytes: Vec<u8> = Vec::new();
        let mut j: usize = 0;
        proof {
            assert(ranks@.subrange(0, ranks@.len() as int) =~= ranks@);
            if spec_decode_bytes(voc, tab, ranks@) is Some {
                assert(Seq::<u8>::empty() + spec_decode_bytes(voc, tab, ranks@)->Some_0
                    =~= spec_decode_bytes(voc, tab, ranks@)->Some_0);
            }
        }
        while j < ranks.len()
            invariant
                self.wf(),
                voc == self.vocab@,
                tab == self.specials@,
                j <= ranks@.len(),
                spec_decode_bytes(voc, tab, ranks@) == (match spec_decode_bytes(
                    voc,
                    tab,
                    ranks@.subrange(j as int, ranks@.len() as int),
                ) {
                    Some(rest) => Some(bytes@ + rest),
                    None => None,
                }),
            decreases ranks@.len() - j,
        {
            let ghost tail = ranks@.subrange(j as int, ranks@.len() as int);
            proof {
                assert(tail[0] == ranks@[j as int]);
                assert(tail.drop_first() =~= ranks@.subrange(j + 1, ranks@.len() as int));
            }
            let rk = ranks[j];
            let ghost prev = bytes@;
            match self.vocab.bytes_of(rk) {
                Some(bs) => {
                    append_all(&mut bytes, bs.as_slice());
                },
                None => {
                    match self.specials.chars_of(rk) {
                        Some(cs) => {
                            let bs = chars_to_bytes(cs.as_slice());
                            append_all(&mut bytes, bs.as_slice());
                        },
                        None => {
                            proof {
                                assert(spec_rank_bytes(voc, tab, ranks@[j as int]) is None);
                                assert(spec_decode_bytes(voc, tab, tail) is None);
                            }
                            return Err(DecodeError::InvalidToken);
                        },
                    }
                },
            }
            proof {
                let b0 = spec_rank_bytes(voc, tab, ranks@[j as int])->Some_0;
                assert(bytes@ == prev + b0);
                let rest_opt = spec_decode_bytes(voc, tab, tail.drop_first());
                if rest_opt is Some {
                    assert((prev + (b0 + rest_opt->Some_0)) =~= (bytes@ + rest_opt->Some_0));
                }
            }
            j = j + 1;
        }
        proof {
            assert(ranks@.subrange(ranks@.len() as int, ranks@.len() as int)
                =~= Seq::<u32>::empty());
            assert(spec_decode_bytes(voc, tab, ranks@) == Some(bytes@ + Seq::<u8>::empty()));
            assert(bytes@ + Seq::<u8>::empty() =~= bytes@);
        }
        match bytes_to_string(bytes) {
            Some(s) => Ok(s),
            None => Err(DecodeError::InvalidText),
        }
    }
}

/// The reserved literals of the base preset, each with its reserved rank.
pub fn base_special_tokens() -> (r: Vec<(String, u32)>)
    ensures
        r@.len() == 5,
        r@[0].0@ == "<|endoftext|>"@ && r@[0].1 == 100257,
        r@[1].0@ == "<|fim_prefix|>"@ && r@[1].1 == 100258,
        r@[2].0@ == "<|fim_middle|>"@ && r@[2].1 == 100259,
        r@[3].0@ == "<|fim_suffix|>"@ && r@[3].1 == 100260,
        r@[4].0@ == "<|endofprompt|>"@ && r@[4].1 == 100276,
{
    let mut out: Vec<(String, u32)> = Vec::new();
    out.push(("<|endoftext|>".to_owned(), 100257));
    out.push(("<|fim_prefix|>".to_owned(), 100258));
    out.push(("<|fim_middle|>".to_owned(), 100259));
    out.push(("<|fim_suffix|>".to_owned(), 100260));
    out.push(("<|endofprompt|>".to_owned(), 100276));
    out
}

} // verus!
