use vstd::prelude::*;

verus! {

/// A 1-based position in the source text: the line, and the byte column within it.
#[derive(PartialEq, Eq, Debug, Clone, Copy)]
pub struct ErrorPos {
    pub line: u32,
    pub col: u32,
}

impl ErrorPos {
    /// Constructs a new position.
    pub fn new(line: u32, col: u32) -> (r: ErrorPos)
        ensures
            r.line == line,
            r.col == col,
    {
        ErrorPos { line, col }
    }
}

/// A tokenizer error.
#[derive(PartialEq, Eq, Debug, Clone, Copy)]
pub enum Error {
    /// A byte that starts no token here, an empty identifier, or an input that
    /// ends in the middle of a token.
    UnknownToken(ErrorPos),
}

/// Clamps a count to what a `u32` can hold.
pub open spec fn clamp_u32(n: int) -> u32 {
    if n < u32::MAX as int { n as u32 } else { u32::MAX }
}

/// Number of line feeds among the first `p` bytes of `t`.
pub open spec fn line_feeds(t: Seq<u8>, p: int) -> int
    decreases p,
{
    if p <= 0 {
        0
    } else {
        line_feeds(t, p - 1) + if t[p - 1] == 0x0Au8 { 1int } else { 0int }
    }
}

/// Offset of the first byte of the line that holds offset `p`.
pub open spec fn line_start(t: Seq<u8>, p: int) -> int
    decreases p,
{
    if p <= 0 {
        0
    } else if t[p - 1] == 0x0Au8 {
        p
    } else {
        line_start(t, p - 1)
    }
}

pub proof fn lemma_line_bounds(t: Seq<u8>, p: int)
    requires
        0 <= p,
    ensures
        0 <= line_start(t, p) <= p,
        0 <= line_feeds(t, p),
    decreases p,
{
    if p > 0 {
        lemma_line_bounds(t, p - 1);
    }
}

/// The 1-based line and byte column of offset `p` in `t`, each clamped to `u32`.
pub open spec fn position_of(t: Seq<u8>, p: int) -> ErrorPos {
    ErrorPos { line: clamp_u32(1 + line_feeds(t, p)), col: clamp_u32(1 + p - line_start(t, p)) }
}

} // verus!
