//! Cutting pieces out of a document without copying them.

use vstd::prelude::*;
use vstd::slice::axiom_spec_len;
use vstd::string::StringSliceAdditionalSpecFns;
use vstd::utf8::{
    decode_utf8, encode_utf8_decode_utf8, encode_utf8_valid_utf8, is_char_boundary,
    is_char_boundary_iff_is_leading_byte, is_char_boundary_iff_not_is_continuation_byte,
    is_char_boundary_start_end_of_seq, is_continuation_byte, pop_first_scalar, valid_utf8,
    valid_utf8_split,
};

verus! {

/// An offset at which a byte stands that begins a character lies between
/// two characters.
pub proof fn lemma_boundary_at_leading_byte(doc: Seq<u8>, at: int)
    requires
        valid_utf8(doc),
        0 <= at < doc.len(),
        !is_continuation_byte(doc[at]),
    ensures
        is_char_boundary(doc, at),
{
    is_char_boundary_iff_not_is_continuation_byte(doc, at);
}

/// The end of a document lies behind its last character.
pub proof fn lemma_boundary_at_end(doc: Seq<u8>)
    requires
        valid_utf8(doc),
    ensures
        is_char_boundary(doc, doc.len() as int),
{
    is_char_boundary_start_end_of_seq(doc);
}

/// The offset behind an ASCII byte lies between two characters.
pub proof fn lemma_boundary_after_ascii(doc: Seq<u8>, at: int)
    requires
        valid_utf8(doc),
        0 <= at < doc.len(),
        doc[at] < 0x80,
    ensures
        is_char_boundary(doc, at + 1),
{
    if at + 1 == doc.len() {
        lemma_boundary_at_end(doc);
    } else {
        lemma_boundary_at_leading_byte(doc, at);
        valid_utf8_split(doc, at);
        let tail = doc.subrange(at, doc.len() as int);
        assert(tail[0] == doc[at]);
        let rest = doc.subrange(at + 1, doc.len() as int);
        assert(pop_first_scalar(tail) =~= rest);
        assert(valid_utf8(rest));
        assert(rest[0] == doc[at + 1]);
        is_char_boundary_start_end_of_seq(rest);
        is_char_boundary_iff_is_leading_byte(rest, 0);
        is_char_boundary_iff_is_leading_byte(doc, at + 1);
    }
}

/// An offset between two characters of a document also lies between two
/// characters of each prefix that reaches it.
pub proof fn lemma_boundary_in_prefix(doc: Seq<u8>, at: int, end: int)
    requires
        valid_utf8(doc),
        0 <= at <= end <= doc.len(),
        is_char_boundary(doc, at),
        is_char_boundary(doc, end),
    ensures
        valid_utf8(doc.subrange(0, end)),
        is_char_boundary(doc.subrange(0, end), at),
{
    valid_utf8_split(doc, end);
    let head = doc.subrange(0, end);
    if at == end {
        is_char_boundary_start_end_of_seq(head);
    } else {
        is_char_boundary_iff_not_is_continuation_byte(doc, at);
        assert(head[at] == doc[at]);
        is_char_boundary_iff_not_is_continuation_byte(head, at);
    }
}

/// The bytes of a document: well-formed UTF-8, and no more of them than
/// the machine can count.
pub fn bytes_of(doc: &str) -> (bytes: &[u8])
    ensures
        bytes@ == doc.spec_bytes(),
        bytes@.len() <= usize::MAX,
        valid_utf8(bytes@),
{
    let bytes = doc.as_bytes();
    proof {
        axiom_spec_len(bytes);
        encode_utf8_valid_utf8(doc@);
    }
    bytes
}

/// The piece of `doc` between the byte offsets `from` and `to`, borrowed.
pub fn cut<'a>(doc: &'a str, from: usize, to: usize) -> (piece: &'a str)
    requires
        from <= to <= doc.spec_bytes().len(),
        is_char_boundary(doc.spec_bytes(), from as int),
        is_char_boundary(doc.spec_bytes(), to as int),
    ensures
        piece.spec_bytes() == doc.spec_bytes().subrange(from as int, to as int),
        piece@ == decode_utf8(doc.spec_bytes().subrange(from as int, to as int)),
{
    proof {
        encode_utf8_valid_utf8(doc@);
        lemma_boundary_in_prefix(doc.spec_bytes(), from as int, to as int);
    }
    let (head, _) = doc.split_at(to);
    let (_, piece) = head.split_at(from);
    proof {
        assert(piece.spec_bytes() =~= doc.spec_bytes().subrange(from as int, to as int));
        encode_utf8_decode_utf8(piece@);
    }
    piece
}

} // verus!
