//! What the crate takes on trust about `String`.

use vstd::prelude::*;

verus! {

/// `String::push` of the standard library, which appends one character to
/// the end of the string. Taken on trust: the string afterwards reads as
/// before, followed by the pushed character.
pub assume_specification[ String::push ](s: &mut String, c: char)
    ensures
        final(s)@ == old(s)@.push(c),
;

} // verus!
