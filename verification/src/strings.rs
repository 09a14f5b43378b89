//! What this crate takes on trust about characters and strings of the
//! standard library. Nothing here is proved: each contract restates the
//! documentation of the function it is about.

use vstd::prelude::*;

verus! {

/// `String::push` appends one character to the string and leaves the
/// characters before it as they were.
pub assume_specification[ String::push ](s: &mut String, ch: char)
    ensures
        final(s)@ == old(s)@.push(ch),
;

/// Whether Unicode counts a character as white space, as
/// `char::is_whitespace` tells it.
pub uninterp spec fn white_space(c: char) -> bool;

/// `char::is_whitespace` reads nothing but the character, so the same
/// character always gets the same answer.
pub assume_specification[ char::is_whitespace ](c: char) -> (white: bool)
    ensures
        white == white_space(c),
;

} // verus!
