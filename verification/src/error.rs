//! Parse errors carrying a byte offset and the 1-based line/column derived
//! from it, so that every diagnostic points at a place in the original input.

use vstd::prelude::*;

use crate::chars::{chars_to_string, push_dec_chars, push_str_chars, spec_dec};

verus! {

/// Line number (1-based) of the character at index `pos` of `s`:
/// one more than the count of newline characters strictly before `pos`.
pub open spec fn spec_line(s: Seq<char>, pos: int) -> int
    decreases pos,
{
    if pos <= 0 {
        1
    } else if s[pos - 1] == '\n' {
        spec_line(s, pos - 1) + 1
    } else {
        spec_line(s, pos - 1)
    }
}

/// Column number (1-based) of the character at index `pos` of `s`:
/// the distance to the nearest preceding newline (or to the start of input).
pub open spec fn spec_col(s: Seq<char>, pos: int) -> int
    decreases pos,
{
    if pos <= 0 {
        1
    } else if s[pos - 1] == '\n' {
        1
    } else {
        spec_col(s, pos - 1) + 1
    }
}

/// Offsets past the end of input are treated as pointing at the end.
pub open spec fn spec_clamp(pos: int, len: int) -> int {
    if pos <= len {
        pos
    } else {
        len
    }
}

/// An error's stored offset lies within the input, and its stored line and
/// column agree with recomputing them from that offset and the input.
pub open spec fn located(e: ParseError, s: Seq<char>) -> bool {
    &&& e.position <= s.len()
    &&& e.line == spec_line(s, spec_clamp(e.position as int, s.len() as int))
    &&& e.column == spec_col(s, spec_clamp(e.position as int, s.len() as int))
}

proof fn lemma_line_col_bounds(s: Seq<char>, pos: int)
    requires
        0 <= pos,
    ensures
        1 <= spec_line(s, pos) <= pos + 1,
        1 <= spec_col(s, pos) <= pos + 1,
    decreases pos,
{
    if pos > 0 {
        lemma_line_col_bounds(s, pos - 1);
    }
}

#[derive(Debug, Clone, PartialEq)]
pub struct ParseError {
    pub message: String,
    pub position: usize,
    pub line: usize,
    pub column: usize,
}

impl ParseError {
    pub fn new(message: String, position: usize, input: &str) -> (e: ParseError)
        requires
            input@.len() < usize::MAX,
        ensures
            e.message == message,
            e.position == position,
            e.line == spec_line(input@, spec_clamp(position as int, input@.len() as int)),
            e.column == spec_col(input@, spec_clamp(position as int, input@.len() as int)),
            position <= input@.len() ==> located(e, input@),
    {
        let (line, column) = Self::calculate_position(position, input);
        ParseError { message, position, line, column }
    }

    /// Recomputes the 1-based line and column of the character at offset
    /// `pos` of `input`, clamping `pos` to the input length.
    pub fn calculate_position(pos: usize, input: &str) -> (r: (usize, usize))
        requires
            input@.len() < usize::MAX,
        ensures
            r.0 == spec_line(input@, spec_clamp(pos as int, input@.len() as int)),
            r.1 == spec_col(input@, spec_clamp(pos as int, input@.len() as int)),
    {
        let len = input.unicode_len();
        let p = if pos < len {
            pos
        } else {
            len
        };
        let mut line: usize = 1;
        let mut column: usize = 1;
        let mut i: usize = 0;
        while i < p
            invariant
                0 <= i <= p,
                p == spec_clamp(pos as int, input@.len() as int),
                p <= input@.len() < usize::MAX,
                line == spec_line(input@, i as int),
                column == spec_col(input@, i as int),
            decreases p - i,
        {
            proof {
                lemma_line_col_bounds(input@, i as int);
            }
            let c = input.get_char(i);
            if c == '\n' {
                line = line + 1;
                column = 1;
            } else {
                column = column + 1;
            }
            i = i + 1;
        }
        (line, column)
    }

    /// Renders the diagnostic line shown to a user.
    pub fn to_display_string(&self) -> (r: String)
        ensures
            r@ == spec_display(*self),
    {
        let mut out: Vec<char> = Vec::new();
        push_str_chars(&mut out, "Parse error at line ");
        push_dec_chars(&mut out, self.line);
        push_str_chars(&mut out, ", column ");
        push_dec_chars(&mut out, self.column);
        push_str_chars(&mut out, ": ");
        push_str_chars(&mut out, self.message.as_str());
        proof {
            assert(out@ =~= spec_display(*self));
        }
        chars_to_string(&out)
    }
}

/// The human-readable form of an error: its location, then its message.
pub open spec fn spec_display(e: ParseError) -> Seq<char> {
    "Parse error at line "@ + spec_dec(e.line as nat) + ", column "@ + spec_dec(e.column as nat)
        + ": "@ + e.message@
}

} // verus!
