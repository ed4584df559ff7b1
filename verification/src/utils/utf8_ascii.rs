use vstd::prelude::*;
use vstd::utf8::*;

verus! {

/// An ASCII character is encoded as the one byte of the same value; any other character as
/// bytes that all lie at or above 0x80, the first at or above 0xC0.
pub proof fn lemma_encode_scalar_ascii(c: char)
    ensures
        encode_scalar(c as u32).len() >= 1,
        (c as u32) < 0x80 ==> encode_scalar(c as u32) =~= seq![c as u8],
        (c as u32) < 0x80 ==> (c as u8) as u32 == c as u32,
        (c as u32) >= 0x80 ==> encode_scalar(c as u32)[0] >= 0xC0,
        (c as u32) >= 0x80 ==> forall|i: int|
            0 <= i < encode_scalar(c as u32).len() ==> #[trigger] encode_scalar(c as u32)[i]
                >= 0x80,
{
    char_is_scalar(c);
    let s = c as u32;
    if has_width_1_encoding(s) {
        assert(leading_byte_width_1(s) == s as u8) by (bit_vector)
            requires
                s <= 0x7f,
        ;
        assert(s as u8 == c as u8);
        assert((s as u8) as u32 == s) by (bit_vector)
            requires
                s <= 0x7f,
        ;
    } else if has_width_2_encoding(s) {
        assert(leading_byte_width_2(s) >= 0xC0) by (bit_vector);
        assert(last_continuation_byte(s) >= 0x80) by (bit_vector);
    } else if has_width_3_encoding(s) {
        assert(leading_byte_width_3(s) >= 0xC0) by (bit_vector);
        assert(second_last_continuation_byte(s) >= 0x80) by (bit_vector);
        assert(last_continuation_byte(s) >= 0x80) by (bit_vector);
    } else {
        assert(leading_byte_width_4(s) >= 0xC0) by (bit_vector);
        assert(third_last_continuation_byte(s) >= 0x80) by (bit_vector);
        assert(second_last_continuation_byte(s) >= 0x80) by (bit_vector);
        assert(last_continuation_byte(s) >= 0x80) by (bit_vector);
    }
}

/// The encoding of a concatenation is the concatenation of the encodings.
pub proof fn lemma_encode_utf8_concat(s: Seq<char>, t: Seq<char>)
    ensures
        encode_utf8(s + t) == encode_utf8(s) + encode_utf8(t),
    decreases s.len(),
{
    if s.len() == 0 {
        assert(s + t =~= t);
        assert(encode_utf8(s) + encode_utf8(t) =~= encode_utf8(t));
    } else {
        assert((s + t).drop_first() =~= s.drop_first() + t);
        lemma_encode_utf8_concat(s.drop_first(), t);
        assert(encode_utf8(s + t) =~= encode_utf8(s) + encode_utf8(t));
    }
}

/// The first byte of valid UTF-8 is below 0x80 exactly when the first character it decodes to
/// is ASCII, and then the two agree.
pub proof fn lemma_first_char_ascii(b: Seq<u8>)
    requires
        valid_utf8(b),
        b.len() > 0,
    ensures
        decode_utf8(b).len() > 0,
        (b[0] < 0x80) == ((decode_utf8(b)[0] as u32) < 0x80),
        b[0] < 0x80 ==> decode_utf8(b)[0] as u8 == b[0],
{
    let chars = decode_utf8(b);
    assert(chars.len() > 0);
    decode_utf8_encode_utf8(b);
    assert(encode_utf8(chars) == b);
    lemma_encode_scalar_ascii(chars[0]);
    assert(encode_utf8(chars) == encode_scalar(chars[0] as u32) + encode_utf8(chars.drop_first()));
    assert(b[0] == encode_scalar(chars[0] as u32)[0]);
}

/// The last byte of valid UTF-8 is below 0x80 exactly when the last character it decodes to
/// is ASCII, and then the two agree.
pub proof fn lemma_last_char_ascii(b: Seq<u8>)
    requires
        valid_utf8(b),
        b.len() > 0,
    ensures
        decode_utf8(b).len() > 0,
        (b.last() < 0x80) == ((decode_utf8(b).last() as u32) < 0x80),
        b.last() < 0x80 ==> decode_utf8(b).last() as u8 == b.last(),
{
    let chars = decode_utf8(b);
    assert(chars.len() > 0);
    decode_utf8_encode_utf8(b);
    let c = chars.last();
    assert(chars =~= chars.drop_last() + seq![c]);
    lemma_encode_utf8_concat(chars.drop_last(), seq![c]);
    let one = seq![c];
    assert(one.drop_first() =~= Seq::<char>::empty());
    assert(one[0] == c);
    assert(encode_utf8(Seq::<char>::empty()) =~= Seq::<u8>::empty());
    assert(encode_utf8(one) == encode_scalar(one[0] as u32) + encode_utf8(one.drop_first()));
    assert(encode_utf8(one) =~= encode_scalar(c as u32));
    lemma_encode_scalar_ascii(c);
    let e = encode_scalar(c as u32);
    let front = encode_utf8(chars.drop_last());
    assert(b =~= front + e);
    assert(b.last() == e[e.len() - 1]);
    if (c as u32) >= 0x80 {
        assert(e[e.len() - 1] >= 0x80);
    }
}

/// In valid UTF-8 every ASCII byte starts a character, and so does the byte right after it.
pub proof fn lemma_ascii_byte_boundaries(b: Seq<u8>, i: int)
    requires
        valid_utf8(b),
        0 <= i < b.len(),
        b[i] < 0x80,
    ensures
        is_char_boundary(b, i),
        is_char_boundary(b, i + 1),
{
    is_char_boundary_iff_is_leading_byte(b, i);
    assert(is_char_boundary(b, i));
    if i + 1 == b.len() {
        is_char_boundary_start_end_of_seq(b);
    } else {
        valid_utf8_split(b, i);
        let t = b.subrange(i, b.len() as int);
        assert(t[0] == b[i]);
        assert(valid_first_scalar(t));
        assert(length_of_first_scalar(t) == 1);
        let rest = pop_first_scalar(t);
        assert(valid_utf8(rest));
        assert(rest.len() > 0);
        assert(rest[0] == b[i + 1]);
        assert(valid_first_scalar(rest));
        is_char_boundary_iff_not_is_continuation_byte(b, i + 1);
    }
}

/// A text whose encoding holds only bytes below 0x80 is ASCII.
pub proof fn lemma_ascii_bytes_ascii_chars(s: Seq<char>)
    requires
        forall|i: int| 0 <= i < encode_utf8(s).len() ==> #[trigger] encode_utf8(s)[i] < 0x80,
    ensures
        is_ascii_chars(s),
    decreases s.len(),
{
    if s.len() > 0 {
        lemma_encode_scalar_ascii(s[0]);
        let e = encode_scalar(s[0] as u32);
        let rest = encode_utf8(s.drop_first());
        assert(encode_utf8(s) == e + rest);
        assert(encode_utf8(s)[0] == e[0]);
        assert(encode_utf8(s)[0] < 0x80);
        assert((s[0] as u32) < 0x80);
        assert forall|i: int| 0 <= i < rest.len() implies #[trigger] rest[i] < 0x80 by {
            assert(encode_utf8(s)[i + e.len()] == rest[i]);
        }
        lemma_ascii_bytes_ascii_chars(s.drop_first());
        assert forall|i: int| 0 <= i < s.len() implies '\0' <= #[trigger] s[i] <= '\u{7f}' by {
            if i > 0 {
                assert(s[i] == s.drop_first()[i - 1]);
                assert('\0' <= s.drop_first()[i - 1] <= '\u{7f}');
            } else {
                lemma_char_code_ascii(s[0]);
            }
        }
    }
}

/// A character whose code is below 0x80 is at most `'\u{7f}'`.
pub proof fn lemma_char_code_ascii(c: char)
    ensures
        ((c as u32) < 0x80) == (c <= '\u{7f}'),
        (c as u32) as int == c as int,
{
}

/// An ASCII character and its byte have the same code.
pub proof fn lemma_ascii_char_byte(c: char, b: u8)
    requires
        c <= '\u{7f}',
        c as u8 == b,
    ensures
        c as int == b as int,
{
    lemma_encode_scalar_ascii(c);
}

/// For ASCII text the encoding is the characters one byte each.
pub proof fn lemma_ascii_text_bytes(s: Seq<char>)
    requires
        is_ascii_chars(s),
    ensures
        encode_utf8(s).len() == s.len(),
        forall|i: int| 0 <= i < s.len() ==> #[trigger] s[i] as int == encode_utf8(s)[i] as int,
{
    is_ascii_chars_encode_utf8(s);
    assert forall|i: int| 0 <= i < s.len() implies #[trigger] s[i] as int == encode_utf8(s)[i] as int by {
        lemma_ascii_char_byte(s[i], encode_utf8(s)[i]);
    }
}

} // verus!
