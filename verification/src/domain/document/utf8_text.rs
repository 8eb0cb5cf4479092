use vstd::prelude::*;
use vstd::utf8::*;

verus! {

/// Byte-level test that std's `str::is_char_boundary` performs: the start, the end,
/// or an index inside the text whose byte is not a UTF-8 continuation byte.
pub open spec fn at_char_boundary(bytes: Seq<u8>, index: int) -> bool {
    ||| index == 0
    ||| index == bytes.len()
    ||| (0 < index < bytes.len() && !is_continuation_byte(bytes[index]))
}

/// The UTF-8 bytes of a string.
pub fn bytes_of(s: &str) -> (b: Vec<u8>)
    ensures
        b@ == encode_utf8(s@),
        valid_utf8(b@),
{
    proof {
        encode_utf8_valid_utf8(s@);
    }
    vstd::slice::slice_to_vec(s.as_bytes())
}

/// `String::from_utf8`, which hands back the bytes as a `String` when they are
/// valid UTF-8 (it fails only on invalid input, which `requires` rules out).
#[verifier::external_body]
fn string_from_utf8(bytes: Vec<u8>) -> (s: String)
    requires
        valid_utf8(bytes@),
    ensures
        encode_utf8(s@) == bytes@,
{
    String::from_utf8(bytes).unwrap()
}

/// The string whose UTF-8 bytes are `bytes`.
pub fn string_of(bytes: Vec<u8>) -> (s: String)
    requires
        valid_utf8(bytes@),
    ensures
        encode_utf8(s@) == bytes@,
        s@ == decode_utf8(bytes@),
{
    let ghost b = bytes@;
    let s = string_from_utf8(bytes);
    proof {
        encode_utf8_decode_utf8(s@);
    }
    s
}

/// Appends `src[from..to]` to `out`.
pub fn push_bytes(out: &mut Vec<u8>, src: &Vec<u8>, from: usize, to: usize)
    requires
        from <= to <= src.len(),
    ensures
        final(out)@ == old(out)@ + src@.subrange(from as int, to as int),
{
    let mut i = from;
    while i < to
        invariant
            from <= i <= to <= src.len(),
            out@ == old(out)@ + src@.subrange(from as int, i as int),
        decreases to - i,
    {
        out.push(src[i]);
        i = i + 1;
        assert(out@ =~= old(out)@ + src@.subrange(from as int, i as int));
    }
}

/// Whether `byte` is a UTF-8 continuation byte.
pub fn is_continuation(byte: u8) -> (r: bool)
    ensures
        r == is_continuation_byte(byte),
{
    0x80 <= byte && byte <= 0xbf
}

/// `at_char_boundary` on a byte vector.
pub fn bytes_at_char_boundary(bytes: &Vec<u8>, index: usize) -> (r: bool)
    ensures
        r == at_char_boundary(bytes@, index as int),
{
    if index == 0 || index == bytes.len() {
        true
    } else if index > bytes.len() {
        false
    } else {
        !is_continuation(bytes[index])
    }
}

/// On valid UTF-8, the byte-level boundary test agrees with the decoding-level one.
pub proof fn lemma_boundary_iff(bytes: Seq<u8>, index: int)
    requires
        valid_utf8(bytes),
    ensures
        is_char_boundary(bytes, index) == at_char_boundary(bytes, index),
{
    is_char_boundary_start_end_of_seq(bytes);
    if 0 <= index < bytes.len() {
        is_char_boundary_iff_not_is_continuation_byte(bytes, index);
    }
}

/// Encoding distributes over concatenation.
pub proof fn lemma_encode_concat(a: Seq<char>, b: Seq<char>)
    ensures
        encode_utf8(a + b) == encode_utf8(a) + encode_utf8(b),
    decreases a.len(),
{
    if a.len() == 0 {
        assert(a + b =~= b);
        assert(encode_utf8(a) =~= Seq::<u8>::empty());
        assert(encode_utf8(a) + encode_utf8(b) =~= encode_utf8(b));
    } else {
        lemma_encode_concat(a.drop_first(), b);
        assert((a + b).drop_first() =~= a.drop_first() + b);
        assert((a + b)[0] == a[0]);
        assert(encode_utf8(a + b) =~= encode_scalar(a[0] as u32) + encode_utf8(a.drop_first() + b));
        assert(encode_utf8(a) =~= encode_scalar(a[0] as u32) + encode_utf8(a.drop_first()));
    }
}

/// The first byte of a non-empty valid UTF-8 text is not a continuation byte.
pub proof fn lemma_first_byte_leads(bytes: Seq<u8>)
    requires
        valid_utf8(bytes),
        bytes.len() > 0,
    ensures
        !is_continuation_byte(bytes[0]),
{
    is_char_boundary_start_end_of_seq(bytes);
    is_char_boundary_iff_not_is_continuation_byte(bytes, 0);
}

/// Boundaries of a concatenation of valid texts are those of its parts.
pub proof fn lemma_boundary_concat(a: Seq<u8>, b: Seq<u8>, index: int)
    requires
        valid_utf8(a),
        valid_utf8(b),
    ensures
        at_char_boundary(a + b, index) == if index <= a.len() {
            at_char_boundary(a, index)
        } else {
            at_char_boundary(b, index - a.len())
        },
{
    if b.len() > 0 {
        lemma_first_byte_leads(b);
    }
    if 0 < index < a.len() {
        assert((a + b)[index] == a[index]);
    } else if a.len() < index < a.len() + b.len() {
        assert((a + b)[index] == b[index - a.len()]);
    } else if index == a.len() && b.len() > 0 {
        assert((a + b)[index] == b[0]);
    }
}

/// A text cut at two boundaries keeps valid UTF-8 between them.
pub proof fn lemma_valid_subrange(bytes: Seq<u8>, i: int, j: int)
    requires
        valid_utf8(bytes),
        0 <= i <= j <= bytes.len(),
        at_char_boundary(bytes, i),
        at_char_boundary(bytes, j),
    ensures
        valid_utf8(bytes.subrange(i, j)),
{
    lemma_boundary_iff(bytes, j);
    valid_utf8_split(bytes, j);
    let head = bytes.subrange(0, j);
    assert(at_char_boundary(head, i)) by {
        if 0 < i < j {
            assert(head[i] == bytes[i]);
        }
    }
    lemma_boundary_iff(head, i);
    valid_utf8_split(head, i);
    assert(head.subrange(i, head.len() as int) =~= bytes.subrange(i, j));
}

/// In valid UTF-8, the byte after a line feed starts a character (or ends the text).
pub proof fn lemma_boundary_after_newline(bytes: Seq<u8>, i: int)
    requires
        valid_utf8(bytes),
        0 <= i < bytes.len(),
        bytes[i] == 0x0a,
    ensures
        at_char_boundary(bytes, i + 1),
{
    assert(at_char_boundary(bytes, i));
    lemma_boundary_iff(bytes, i);
    valid_utf8_split(bytes, i);
    let rest = bytes.subrange(i, bytes.len() as int);
    assert(rest[0] == 0x0a);
    assert(valid_first_scalar(rest));
    assert(length_of_first_scalar(rest) == 1);
    let tail = pop_first_scalar(rest);
    assert(valid_utf8(tail));
    if i + 1 < bytes.len() {
        assert(tail.len() > 0);
        lemma_first_byte_leads(tail);
        assert(tail[0] == bytes[i + 1]);
    }
}

} // verus!
