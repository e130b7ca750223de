//! Building strings one character at a time.

use vstd::prelude::*;

verus! {

/// `String::push`: the string afterwards is the string before with `c` added at
/// its end. Not proved: the body is the standard library's.
#[verifier::external_body]
pub(crate) fn push_char(s: &mut String, c: char)
    ensures
        final(s)@ == old(s)@.push(c),
{
    s.push(c)
}

} // verus!
