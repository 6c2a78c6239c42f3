//! Terminal styling: wrap a message in an ANSI code and the reset
//! sequence when colour is on, and pass it through untouched otherwise.

use vstd::prelude::*;
use vstd::string::{StringExecFns, StrSliceExecFns};

verus! {

pub struct Output {
    pub color: bool,
}

/// The styled form of a message.
pub open spec fn spec_styled(color: bool, code: Seq<char>, text: Seq<char>) -> Seq<char> {
    if color {
        code + text + "\u{1b}[0m"@
    } else {
        text
    }
}

impl Output {
    pub fn new(color: bool) -> (r: Output)
        ensures
            r.color == color,
    {
        Output { color }
    }

    fn styled(&self, code: &str, text: &str) -> (r: String)
        ensures
            r@ == spec_styled(self.color, code@, text@),
    {
        if self.color {
            let mut s = String::from_str(code);
            s.append(text);
            s.append("\u{1b}[0m");
            s
        } else {
            text.to_owned()
        }
    }

    /// The message in bold, when colour is on.
    pub fn bold(&self, msg: &str) -> (r: String)
        ensures
            r@ == spec_styled(self.color, "\u{1b}[1m"@, msg@),
    {
        self.styled("\u{1b}[1m", msg)
    }

    /// The message dimmed, when colour is on.
    pub fn dim(&self, msg: &str) -> (r: String)
        ensures
            r@ == spec_styled(self.color, "\u{1b}[2m"@, msg@),
    {
        self.styled("\u{1b}[2m", msg)
    }
}

} // verus!
