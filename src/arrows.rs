use vstd::prelude::*;

verus! {

/// Escape byte that starts an arrow key's sequence.
pub const ESC: i32 = 0x1b;

/// Opening bracket that follows the escape byte.
pub const BRACKET: i32 = 0x5b;

/// Final byte of the up arrow; down, right and left follow it.
pub const ARROW_UP: i32 = 0x41;

/// Recognises arrow keys in a stream of key codes: an escape byte, an
/// opening bracket, then one of `A`..`D` for up, down, right, left.
#[derive(Clone, Copy, Debug, PartialEq, Eq, Structural)]
pub struct ArrowDecoder {
    pub after_esc: bool,
    pub after_bracket: bool,
}

impl ArrowDecoder {
    /// A decoder that has seen nothing yet.
    pub fn new() -> (r: ArrowDecoder)
        ensures
            !r.after_esc && !r.after_bracket,
    {
        ArrowDecoder { after_esc: false, after_bracket: false }
    }

    /// Takes the next key code. Gives the direction code (0 up, 1 down,
    /// 2 right, 3 left) when it ends an arrow's sequence.
    pub fn feed(&mut self, ch: i32) -> (r: Option<i32>)
        ensures
            old(self).after_bracket && ARROW_UP <= ch <= ARROW_UP + 3 ==> r == Some((ch - ARROW_UP) as i32),
            !(old(self).after_bracket && ARROW_UP <= ch <= ARROW_UP + 3) ==> r is None && final(self).after_bracket
                == (ch == BRACKET && old(self).after_esc) && final(self).after_esc == (ch == ESC),
    {
        if self.after_bracket && ch >= ARROW_UP && ch <= ARROW_UP + 3 {
            return Some(ch - ARROW_UP);
        }
        self.after_bracket = ch == BRACKET && self.after_esc;
        self.after_esc = ch == ESC;
        None
    }
}

} // verus!
