//! What this library relies on from `String` beyond what vstd states.

use vstd::prelude::*;

verus! {

/// `String::push`, of the standard library: the string afterwards is the
/// string before with the character `c` appended at its end. This is taken
/// from the documentation of `push` and not proved here.
pub assume_specification[ String::push ](s: &mut String, c: char)
    ensures
        final(s)@ == old(s)@.push(c),
;

} // verus!
