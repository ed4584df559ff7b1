use vstd::prelude::*;

verus! {

/// `String::from_iter` over characters: the string holds exactly `chars`, in order.
#[verifier::external_body]
pub(crate) fn string_from_chars(chars: Vec<char>) -> (s: String)
    ensures
        s@ == chars@,
{
    String::from_iter(chars)
}

} // verus!
