use vstd::prelude::*;
use vstd::string::StringSliceAdditionalSpecFns;

verus! {

/// The pattern that a reference number has: eleven ASCII digits and a capital `N`.
pub open spec fn reference_pattern() -> Seq<char> {
    seq!['[', '0', '-', '9', ']', '{', '1', '1', '}', 'N']
}

pub open spec fn is_ascii_digit_byte(b: u8) -> bool {
    0x30 <= b && b <= 0x39
}

/// Eleven ASCII digits followed by `N`, as bytes.
pub open spec fn is_reference_bytes(b: Seq<u8>) -> bool {
    &&& b.len() == 12
    &&& forall|i: int| 0 <= i < 11 ==> is_ascii_digit_byte(#[trigger] b[i])
    &&& b[11] == 0x4e
}

/// The bytes at `p..p + 12` of `b` spell a reference number.
pub open spec fn reference_at(b: Seq<u8>, p: int) -> bool {
    0 <= p && p + 12 <= b.len() && is_reference_bytes(b.subrange(p, p + 12))
}

/// Every position from `i` on where a reference number starts, in increasing order.
pub open spec fn reference_positions(b: Seq<u8>, i: int) -> Seq<int>
    decreases b.len() + 1 - i,
{
    if i < 0 || i + 12 > b.len() {
        seq![]
    } else if reference_at(b, i) {
        seq![i] + reference_positions(b, i + 1)
    } else {
        reference_positions(b, i + 1)
    }
}

/// ASCII bytes read as the characters they encode.
pub open spec fn ascii_text(b: Seq<u8>) -> Seq<char> {
    b.map_values(|x: u8| x as char)
}

/// `regex::Regex::new(pattern)` with `Regex::find_iter(text)`, each match taken as its start,
/// end and matched text. For the pattern `[0-9]{11}N` the contract claims what the crate
/// documents for leftmost-first iteration: matches come in order of position, and since two
/// matches of this fixed-length pattern can never overlap, every position where eleven ASCII
/// digits and an `N` start is reported, each spanning twelve bytes.
#[verifier::external_body]
pub(crate) fn find_reference_matches(pattern: &str, text: &str) -> (res: Vec<(usize, usize, String)>)
    requires
        pattern@ == reference_pattern(),
    ensures
        res@.len() == reference_positions(text.spec_bytes(), 0).len(),
        forall|k: int|
            0 <= k < res@.len() ==> {
                &&& #[trigger] res@[k].0 == reference_positions(text.spec_bytes(), 0)[k]
                &&& res@[k].1 == res@[k].0 + 12
                &&& res@[k].2@ == ascii_text(
                    text.spec_bytes().subrange(res@[k].0 as int, res@[k].0 + 12),
                )
            },
{
    let re = regex::Regex::new(pattern).unwrap();
    re.find_iter(text).map(|m| (m.start(), m.end(), m.as_str().to_string())).collect()
}

} // verus!
