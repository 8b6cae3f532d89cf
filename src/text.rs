//! Facts about UTF-8 that the reader relies on: where characters begin, and
//! how the encoding of a string splits.
use vstd::prelude::*;
use vstd::string::*;
use vstd::utf8::*;

verus! {

broadcast use vstd::seq::group_seq_axioms;

/// Stepping over one whole scalar from a character boundary lands on a
/// character boundary.
pub proof fn lemma_boundary_step(b: Seq<u8>, i: int)
    requires
        valid_utf8(b),
        is_char_boundary(b, i),
        0 <= i < b.len(),
    ensures
        valid_first_scalar(b.subrange(i, b.len() as int)),
        is_char_boundary(b, i + length_of_first_scalar(b.subrange(i, b.len() as int))),
    decreases b.len(),
{
    let k = length_of_first_scalar(b);
    let rest = pop_first_scalar(b);
    if i == 0 {
        assert(b.subrange(0, b.len() as int) =~= b);
        reveal_with_fuel(is_char_boundary, 2);
        assert(is_char_boundary(rest, 0));
    } else {
        assert(k <= b.len());
        assert(rest.len() == b.len() - k);
        assert(is_char_boundary(rest, i - k));
        assert(i - k >= 0) by {
            if i < k {
                assert(is_char_boundary(b, i) == is_char_boundary(rest, i - k));
            }
        }
        assert(rest.subrange(i - k, rest.len() as int) =~= b.subrange(i, b.len() as int));
        lemma_boundary_step(rest, i - k);
    }
}

/// A byte below 0x80 is a whole character, so it begins one and the byte after
/// it begins the next.
pub proof fn lemma_ascii_boundary(b: Seq<u8>, i: int)
    requires
        valid_utf8(b),
        0 <= i < b.len(),
        b[i] < 0x80,
    ensures
        is_char_boundary(b, i),
        is_char_boundary(b, i + 1),
{
    is_char_boundary_iff_not_is_continuation_byte(b, i);
    lemma_boundary_step(b, i);
}

/// The end of a valid encoding is a character boundary, and so is any index
/// whose byte is ASCII.
pub proof fn lemma_boundary_at(b: Seq<u8>, i: int)
    requires
        valid_utf8(b),
        0 <= i <= b.len(),
        i == b.len() || b[i] < 0x80,
    ensures
        is_char_boundary(b, i),
{
    if i == b.len() {
        is_char_boundary_start_end_of_seq(b);
    } else {
        lemma_ascii_boundary(b, i);
    }
}

/// Encoding distributes over concatenation.
pub proof fn lemma_encode_concat(a: Seq<char>, c: Seq<char>)
    ensures
        encode_utf8(a + c) == encode_utf8(a) + encode_utf8(c),
    decreases a.len(),
{
    if a.len() == 0 {
        assert(a + c =~= c);
        assert(encode_utf8(a) =~= Seq::<u8>::empty());
        assert(encode_utf8(a) + encode_utf8(c) =~= encode_utf8(c));
    } else {
        assert((a + c).drop_first() =~= a.drop_first() + c);
        lemma_encode_concat(a.drop_first(), c);
        assert((a + c)[0] == a[0]);
        assert(encode_utf8(a + c) =~= encode_scalar(a[0] as u32) + encode_utf8(a.drop_first() + c));
    }
}

/// An ASCII character encodes as the single byte of the same value.
pub proof fn lemma_encode_ascii(c: char)
    requires
        (c as u32) < 0x80,
    ensures
        encode_utf8(seq![c]) == seq![c as u8],
{
    assert(seq![c].drop_first() =~= Seq::<char>::empty());
    assert(encode_utf8(Seq::<char>::empty()) =~= Seq::<u8>::empty());
    assert(has_width_1_encoding(c as u32));
    let v = c as u32;
    assert((v & 0x7F) == v) by (bit_vector)
        requires
            v < 0x80,
    ;
    assert(leading_byte_width_1(c as u32) == c as u8);
    assert(encode_utf8(seq![c]) =~= encode_scalar(c as u32) + Seq::<u8>::empty());
}

/// A string's characters are the decoding of its bytes.
pub proof fn lemma_str_decodes(s: &str)
    ensures
        valid_utf8(s.spec_bytes()),
        s@ == decode_utf8(s.spec_bytes()),
{
    encode_utf8_valid_utf8(s@);
    encode_utf8_decode_utf8(s@);
}

/// The first character of a non-empty string is the first scalar of its
/// encoding.
pub proof fn lemma_first_char(s: &str)
    requires
        s.spec_bytes().len() > 0,
    ensures
        s@.len() > 0,
        s@[0] == decode_first_scalar(s.spec_bytes()) as char,
{
    lemma_str_decodes(s);
    let b = s.spec_bytes();
    assert(decode_utf8(b) =~= seq![decode_first_scalar(b) as char] + decode_utf8(pop_first_scalar(b)));
}

} // verus!
