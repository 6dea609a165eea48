//! The laws the tokenizer obeys, stated and proved over the contracts of
//! its parts: determinism of encoding, the leftmost tie-break of the merge,
//! isolation of reserved literals, and the round trip from text through
//! ranks back to the same text.

use vstd::prelude::*;
use vstd::utf8::{
    encode_utf8, decode_utf8, valid_utf8, encode_utf8_valid_utf8, encode_utf8_decode_utf8,
};
use crate::vocab::{
    Vocabulary, NO_RANK, find_rank, find_bytes, complete, first_violation, lemma_lookup_inverse,
};
use crate::scanner::{
    table_entries_wf, next_special_from, lemma_find_special_some, lemma_next_special_bounds,
};
use crate::merge::{
    pair_rank, is_merge_idx, merge_bounds, bpe_bounds, ranks_of_bounds, init_bounds, bounds_wf,
    spans_known, rank_or_sentinel, lemma_merge_bounds_step, lemma_merge_bounds_preserves,
    lemma_init_spans_known, lemma_bounds_sorted,
};
use crate::encoder::{
    Encoder, spec_encode, spec_encode_from, spec_encode_piece, spec_encode_chunk_from,
    spec_encode_no_special, spec_rank_bytes, spec_decode_bytes,
};
use crate::chars::{lemma_encode_utf8_concat, lemma_encode_utf8_len};
use crate::pretoken::piece_end;

verus! {

/// A well-formed vocabulary holds an entry for every single byte value.
pub proof fn lemma_vocab_complete(v: &Vocabulary)
    requires
        v.wf(),
    ensures
        forall|b: u8| v.spec_lookup(seq![b]) is Some,
{
}

/// Encoding is a function of the vocabulary, the table and the text alone:
/// two runs over the same state and text give the same ranks.
pub proof fn lemma_encode_deterministic(
    voc: Seq<(Seq<u8>, u32)>,
    table: Seq<(Seq<char>, u32)>,
    s: Seq<char>,
    r1: Seq<u32>,
    r2: Seq<u32>,
)
    requires
        r1 == spec_encode(voc, table, s),
        r2 == spec_encode(voc, table, s),
    ensures
        r1 == r2,
{
}

/// When two boundaries tie on the minimal pair rank, the leftmost of them
/// merges, and the other does not.
pub proof fn lemma_tie_break_leftmost(
    voc: Seq<(Seq<u8>, u32)>,
    piece: Seq<u8>,
    b: Seq<int>,
    i1: int,
    i2: int,
)
    requires
        0 <= i1 < i2 < b.len(),
        pair_rank(voc, piece, b, i1) == pair_rank(voc, piece, b, i2),
        pair_rank(voc, piece, b, i1) < NO_RANK,
        forall|j: int|
            0 <= j < b.len() ==> pair_rank(voc, piece, b, i1) <= pair_rank(voc, piece, b, j),
        forall|j: int| 0 <= j < i1 ==> pair_rank(voc, piece, b, j) > pair_rank(voc, piece, b, i1),
    ensures
        is_merge_idx(voc, piece, b, i1),
        !is_merge_idx(voc, piece, b, i2),
        merge_bounds(voc, piece, b) == merge_bounds(voc, piece, b.remove(i1 + 1)),
{
    assert(!is_merge_idx(voc, piece, b, i2)) by {
        assert(pair_rank(voc, piece, b, i1) <= pair_rank(voc, piece, b, i2));
    }
    lemma_merge_bounds_step(voc, piece, b, i1);
}

/// A reserved literal is encoded as its own rank, with the text before it
/// and the text after it encoded separately: nothing merges across it.
pub proof fn lemma_special_token_isolated(
    voc: Seq<(Seq<u8>, u32)>,
    table: Seq<(Seq<char>, u32)>,
    s: Seq<char>,
    i: int,
)
    requires
        0 <= i,
        table_entries_wf(table),
        next_special_from(table, s, i) is Some,
    ensures
        ({
            let (p, t) = next_special_from(table, s, i)->Some_0;
            spec_encode_from(voc, table, s, i) == spec_encode_no_special(voc, s.subrange(i, p))
                + seq![table[t].1] + spec_encode_from(voc, table, s, p + table[t].0.len())
        }),
{
    lemma_next_special_bounds(table, s, i);
}

/// Decoding distributes over concatenation of rank sequences.
proof fn lemma_decode_concat(
    voc: Seq<(Seq<u8>, u32)>,
    table: Seq<(Seq<char>, u32)>,
    r1: Seq<u32>,
    r2: Seq<u32>,
)
    requires
        spec_decode_bytes(voc, table, r1) is Some,
        spec_decode_bytes(voc, table, r2) is Some,
    ensures
        spec_decode_bytes(voc, table, r1 + r2) == Some(
            spec_decode_bytes(voc, table, r1)->Some_0 + spec_decode_bytes(voc, table, r2)->Some_0,
        ),
    decreases r1.len(),
{
    if r1.len() == 0 {
        assert(r1 + r2 =~= r2);
        assert(spec_decode_bytes(voc, table, r1)->Some_0 + spec_decode_bytes(
            voc,
            table,
            r2,
        )->Some_0 =~= spec_decode_bytes(voc, table, r2)->Some_0);
    } else {
        lemma_decode_concat(voc, table, r1.drop_first(), r2);
        assert((r1 + r2)[0] == r1[0]);
        assert((r1 + r2).drop_first() =~= r1.drop_first() + r2);
        let b0 = spec_rank_bytes(voc, table, r1[0])->Some_0;
        let rest1 = spec_decode_bytes(voc, table, r1.drop_first())->Some_0;
        let b2 = spec_decode_bytes(voc, table, r2)->Some_0;
        assert((b0 + rest1) + b2 =~= b0 + (rest1 + b2));
    }
}

/// A reserved rank decodes to the bytes of its literal.
proof fn lemma_special_rank_decodes(
    voc: Seq<(Seq<u8>, u32)>,
    table: Seq<(Seq<char>, u32)>,
    t: int,
)
    requires
        table_entries_wf(table),
        forall|u: int|
            0 <= u < table.len() ==> find_bytes(voc, (#[trigger] table[u]).1) is None,
        0 <= t < table.len(),
    ensures
        spec_rank_bytes(voc, table, table[t].1) == Some(encode_utf8(table[t].0)),
{
    assert forall|u: int| 0 <= u < t implies (#[trigger] table[u]).1 != table[t].1 by {}
    lemma_find_special_some(table, table[t].1, t);
}

/// The ranks of the spans from boundary `j` on decode to the bytes from
/// offset `b[j]` to the end of the piece.
proof fn lemma_spans_decode(
    voc: Seq<(Seq<u8>, u32)>,
    table: Seq<(Seq<char>, u32)>,
    piece: Seq<u8>,
    b: Seq<int>,
    j: int,
)
    requires
        first_violation(voc, 0) is None,
        bounds_wf(piece, b),
        spans_known(voc, piece, b),
        0 <= j < b.len(),
    ensures
        spec_decode_bytes(voc, table, ranks_of_bounds(voc, piece, b).subrange(j, b.len() - 1))
            == Some(piece.subrange(b[j], b[b.len() - 1])),
    decreases b.len() - j,
{
    let rs = ranks_of_bounds(voc, piece, b);
    if j == b.len() - 1 {
        assert(rs.subrange(j, b.len() - 1) =~= Seq::<u32>::empty());
        assert(piece.subrange(b[j], b[b.len() - 1]) =~= Seq::<u8>::empty());
    } else {
        lemma_spans_decode(voc, table, piece, b, j + 1);
        if j > 0 {
            lemma_bounds_sorted(piece, b, 0, j);
        }
        assert(b[j] < b[j + 1]);
        let sub = rs.subrange(j, b.len() - 1);
        let span = piece.subrange(b[j], b[j + 1]);
        assert(sub[0] == rs[j]);
        assert(rs[j] == rank_or_sentinel(voc, span));
        assert(find_rank(voc, span) is Some);
        lemma_lookup_inverse(voc, span);
        assert(spec_rank_bytes(voc, table, rs[j]) == Some(span));
        assert(sub.drop_first() =~= rs.subrange(j + 1, b.len() - 1));
        if j + 1 < b.len() - 1 {
            lemma_bounds_sorted(piece, b, j + 1, b.len() - 1);
        }
        assert(span + piece.subrange(b[j + 1], b[b.len() - 1]) =~= piece.subrange(
            b[j],
            b[b.len() - 1],
        ));
    }
}

/// The ranks of one piece decode to that piece's bytes.
proof fn lemma_piece_decodes(
    voc: Seq<(Seq<u8>, u32)>,
    table: Seq<(Seq<char>, u32)>,
    piece: Seq<u8>,
)
    requires
        first_violation(voc, 0) is None,
        complete(voc),
        piece.len() >= 1,
    ensures
        spec_decode_bytes(voc, table, spec_encode_piece(voc, piece)) == Some(piece),
    decreases piece.len(),
{
    match find_rank(voc, piece) {
        Some(r) => {
            lemma_lookup_inverse(voc, piece);
            let rs = seq![r];
            assert(rs[0] == r);
            assert(rs.drop_first() =~= Seq::<u32>::empty());
            assert(spec_decode_bytes(voc, table, rs.drop_first()) == Some(Seq::<u8>::empty()));
            assert(piece + Seq::<u8>::empty() =~= piece);
        },
        None => {
            if piece.len() == 1 {
                assert(piece =~= seq![piece[0]]);
                assert(find_rank(voc, seq![piece[0]]) is Some);
                assert(false);
            }
            let b0 = init_bounds(piece.len());
            assert(bounds_wf(piece, b0));
            lemma_init_spans_known(voc, piece);
            lemma_merge_bounds_preserves(voc, piece, b0);
            let b = bpe_bounds(voc, piece);
            lemma_spans_decode(voc, table, piece, b, 0);
            let rs = ranks_of_bounds(voc, piece, b);
            assert(rs.subrange(0, b.len() - 1) =~= rs);
            assert(piece.subrange(b[0], b[b.len() - 1]) =~= piece);
        },
    }
}

/// The ranks of a chunk from position `i` on decode to the bytes of its
/// characters from `i` on.
proof fn lemma_chunk_decodes(
    voc: Seq<(Seq<u8>, u32)>,
    table: Seq<(Seq<char>, u32)>,
    chunk: Seq<char>,
    i: int,
)
    requires
        first_violation(voc, 0) is None,
        complete(voc),
        0 <= i <= chunk.len(),
    ensures
        spec_decode_bytes(voc, table, spec_encode_chunk_from(voc, chunk, i)) == Some(
            encode_utf8(chunk.subrange(i, chunk.len() as int)),
        ),
    decreases chunk.len() - i,
{
    if i >= chunk.len() {
        assert(chunk.subrange(i, chunk.len() as int) =~= Seq::<char>::empty());
    } else {
        let e = piece_end(chunk, i);
        let pc = chunk.subrange(i, e);
        let piece = encode_utf8(pc);
        lemma_encode_utf8_len(pc);
        lemma_piece_decodes(voc, table, piece);
        lemma_chunk_decodes(voc, table, chunk, e);
        lemma_decode_concat(
            voc,
            table,
            spec_encode_piece(voc, piece),
            spec_encode_chunk_from(voc, chunk, e),
        );
        lemma_encode_utf8_concat(pc, chunk.subrange(e, chunk.len() as int));
        assert(pc + chunk.subrange(e, chunk.len() as int) =~= chunk.subrange(
            i,
            chunk.len() as int,
        ));
    }
}

/// The ranks of a text from position `i` on decode to the bytes of its
/// characters from `i` on, reserved literals included.
proof fn lemma_text_decodes(
    voc: Seq<(Seq<u8>, u32)>,
    table: Seq<(Seq<char>, u32)>,
    s: Seq<char>,
    i: int,
)
    requires
        first_violation(voc, 0) is None,
        complete(voc),
        table_entries_wf(table),
        forall|u: int|
            0 <= u < table.len() ==> find_bytes(voc, (#[trigger] table[u]).1) is None,
        0 <= i <= s.len(),
    ensures
        spec_decode_bytes(voc, table, spec_encode_from(voc, table, s, i)) == Some(
            encode_utf8(s.subrange(i, s.len() as int)),
        ),
    decreases s.len() - i,
{
    match next_special_from(table, s, i) {
        None => {
            lemma_chunk_decodes(voc, table, s.subrange(i, s.len() as int), 0);
            let sub = s.subrange(i, s.len() as int);
            assert(sub.subrange(0, sub.len() as int) =~= sub);
        },
        Some(pt) => {
            lemma_next_special_bounds(table, s, i);
            let p = pt.0;
            let t = pt.1;
            assert(0 <= t < table.len());
            assert(i <= p < s.len());
            let tl = table[t].0.len() as int;
            let chunk = s.subrange(i, p);
            lemma_chunk_decodes(voc, table, chunk, 0);
            assert(chunk.subrange(0, chunk.len() as int) =~= chunk);
            lemma_special_rank_decodes(voc, table, t);
            let rtok = seq![table[t].1];
            assert(rtok[0] == table[t].1);
            assert(rtok.drop_first() =~= Seq::<u32>::empty());
            assert(spec_decode_bytes(voc, table, rtok.drop_first()) == Some(Seq::<u8>::empty()));
            assert(spec_decode_bytes(voc, table, rtok) == Some(
                encode_utf8(table[t].0) + Seq::<u8>::empty(),
            ));
            assert(encode_utf8(table[t].0) + Seq::<u8>::empty() =~= encode_utf8(table[t].0));
            lemma_text_decodes(voc, table, s, p + tl);
            let ra = spec_encode_no_special(voc, chunk);
            let rc = spec_encode_from(voc, table, s, p + tl);
            lemma_decode_concat(voc, table, ra, rtok);
            lemma_decode_concat(voc, table, ra + rtok, rc);
            assert(spec_encode_from(voc, table, s, i) == (ra + rtok) + rc);
            let lit = s.subrange(p, p + tl);
            assert(lit == table[t].0);
            lemma_encode_utf8_concat(chunk, lit);
            assert(chunk + lit =~= s.subrange(i, p + tl));
            lemma_encode_utf8_concat(s.subrange(i, p + tl), s.subrange(p + tl, s.len() as int));
            assert(s.subrange(i, p + tl) + s.subrange(p + tl, s.len() as int) =~= s.subrange(
                i,
                s.len() as int,
            ));
            assert((encode_utf8(chunk) + encode_utf8(lit)) + encode_utf8(
                s.subrange(p + tl, s.len() as int),
            ) =~= encode_utf8(s.subrange(i, s.len() as int)));
        },
    }
}

/// The round trip: the ranks an engine produces for a text decode to that
/// very text.
pub proof fn lemma_round_trip(e: &Encoder, s: Seq<char>)
    requires
        e.wf(),
    ensures
        spec_decode_bytes(e.vocab@, e.specials@, spec_encode(e.vocab@, e.specials@, s)) == Some(
            encode_utf8(s),
        ),
        valid_utf8(encode_utf8(s)),
        decode_utf8(encode_utf8(s)) == s,
{
    lemma_text_decodes(e.vocab@, e.specials@, s, 0);
    assert(s.subrange(0, s.len() as int) =~= s);
    encode_utf8_valid_utf8(s);
    encode_utf8_decode_utf8(s);
}

} // verus!
