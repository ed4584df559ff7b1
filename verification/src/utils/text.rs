use vstd::prelude::*;
use vstd::utf8::*;
use vstd::string::StringSliceAdditionalSpecFns;

use crate::utils::strings::is_ascii_alphanumeric;
use crate::utils::utf8_ascii::{lemma_encode_scalar_ascii, lemma_first_char_ascii, lemma_last_char_ascii};

verus! {

pub open spec fn is_ascii_alphanumeric_byte(b: u8) -> bool {
    ||| (0x30 <= b && b <= 0x39)
    ||| (0x41 <= b && b <= 0x5a)
    ||| (0x61 <= b && b <= 0x7a)
}

fn is_ascii_alphanumeric_u8(b: u8) -> (r: bool)
    ensures
        r == is_ascii_alphanumeric_byte(b),
{
    (0x30 <= b && b <= 0x39) || (0x41 <= b && b <= 0x5a) || (0x61 <= b && b <= 0x7a)
}

proof fn lemma_alphanumeric_char_byte(c: char, x: u8)
    requires
        ((c as u32) < 0x80) == (x < 0x80),
        x < 0x80 ==> c as u8 == x,
    ensures
        is_ascii_alphanumeric(c) == is_ascii_alphanumeric_byte(x),
{
    if x < 0x80 {
        lemma_encode_scalar_ascii(c);
        assert((c as u8) as u32 == c as u32);
    }
}

/// True when the text in front of byte offset `start` does not end in an ASCII letter or digit
/// and the text from byte offset `end` on does not begin with one.
pub open spec fn isolated_boundaries(haystack: Seq<u8>, start: int, end: int) -> bool {
    let before = decode_utf8(haystack.take(start));
    let after = decode_utf8(haystack.skip(end));
    &&& (before.len() == 0 || !is_ascii_alphanumeric(before.last()))
    &&& (after.len() == 0 || !is_ascii_alphanumeric(after[0]))
}

/// Whether a match found at bytes `start..end` of `haystack` stands on its own: a match that
/// touches a digit or ASCII letter on either side was cut out of a longer run and does not count.
pub fn has_isolated_boundaries(haystack: &str, start: usize, end: usize) -> (res: bool)
    requires
        start <= haystack.spec_bytes().len(),
        end <= haystack.spec_bytes().len(),
        is_char_boundary(haystack.spec_bytes(), start as int),
        is_char_boundary(haystack.spec_bytes(), end as int),
    ensures
        res == isolated_boundaries(haystack.spec_bytes(), start as int, end as int),
{
    let bytes = haystack.as_bytes();
    let ghost b = haystack.spec_bytes();
    proof {
        encode_utf8_valid_utf8(haystack@);
        valid_utf8_split(b, start as int);
        valid_utf8_split(b, end as int);
        assert(b.take(start as int) =~= b.subrange(0, start as int));
        assert(b.skip(end as int) =~= b.subrange(end as int, b.len() as int));
    }
    let before_ok = if start == 0 {
        proof {
            assert(b.take(0) =~= Seq::<u8>::empty());
        }
        true
    } else {
        let x = bytes[start - 1];
        proof {
            let pre = b.take(start as int);
            lemma_last_char_ascii(pre);
            assert(pre.last() == x);
            lemma_alphanumeric_char_byte(decode_utf8(pre).last(), x);
        }
        !is_ascii_alphanumeric_u8(x)
    };
    let after_ok = if end == bytes.len() {
        proof {
            assert(b.skip(end as int) =~= Seq::<u8>::empty());
        }
        true
    } else {
        let y = bytes[end];
        proof {
            let post = b.skip(end as int);
            lemma_first_char_ascii(post);
            assert(post[0] == y);
            lemma_alphanumeric_char_byte(decode_utf8(post)[0], y);
        }
        !is_ascii_alphanumeric_u8(y)
    };
    before_ok && after_ok
}

} // verus!
