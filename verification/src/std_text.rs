//! What the library takes on trust from the standard library's text types.

use vstd::prelude::*;

verus! {

/// `String::push` puts the character at the end of the string and leaves
/// the rest of it as it was.
pub assume_specification[ String::push ](s: &mut String, c: char)
    ensures
        final(s)@ == old(s)@.push(c),
;

/// `char::from_u32` gives the character of a code point, and nothing for
/// a number that is none: a surrogate, or one above 0x10FFFF.
pub assume_specification[ char::from_u32 ](i: u32) -> (r: Option<char>)
    ensures
        r == if i <= 0xD7FF || (0xE000 <= i && i <= 0x10FFFF) {
            Some(i as char)
        } else {
            None::<char>
        },
;

} // verus!
