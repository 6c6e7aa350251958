use vstd::prelude::*;

verus! {

/// Relies on `String::push`: appends the given character, and nothing else,
/// to the end of the string.
pub assume_specification[ std::string::String::push ](s: &mut std::string::String, ch: char)
    ensures
        final(s)@ == old(s)@.push(ch),
;

/// Relies on `char::from_u32`: yields the character with the given scalar
/// value, and `None` exactly on surrogate code points and values past the
/// last code point.
pub assume_specification[ char::from_u32 ](code: u32) -> (r: Option<char>)
    ensures
        (r is Some) <==> (code < 0xD800 || (0xE000 <= code && code <= 0x10FFFF)),
        r matches Some(c) ==> c as u32 == code,
;

} // verus!
