use vstd::prelude::*;
use vstd::utf8::*;
use vstd::string::StringSliceAdditionalSpecFns;
use crate::error::{lemma_line_bounds, line_feeds, position_of, Error, ErrorPos};

verus! {

broadcast use vstd::utf8::encode_utf8_valid_utf8;

/// ASCII whitespace: space, tab, line feed, carriage return and form feed.
pub open spec fn is_space_byte(b: u8) -> bool {
    b == 0x20u8 || b == 0x09u8 || b == 0x0Au8 || b == 0x0Du8 || b == 0x0Cu8
}

/// The identifier class: ASCII letters and digits, `-` and `_`.
pub open spec fn is_ident_byte(b: u8) -> bool {
    (0x61u8 <= b && b <= 0x7Au8) || (0x41u8 <= b && b <= 0x5Au8) || (0x30u8 <= b && b <= 0x39u8)
        || b == 0x2Du8 || b == 0x5Fu8
}

/// The first offset at or after `i` (and before `end`) that holds no whitespace, else `end`.
pub open spec fn skip_spaces_from(t: Seq<u8>, end: int, i: int) -> int
    decreases end - i,
{
    if i < end && is_space_byte(t[i]) {
        skip_spaces_from(t, end, i + 1)
    } else {
        i
    }
}

/// The first offset at or after `i` (and before `end`) that holds no identifier byte, else `end`.
pub open spec fn ident_end(t: Seq<u8>, end: int, i: int) -> int
    decreases end - i,
{
    if i < end && is_ident_byte(t[i]) {
        ident_end(t, end, i + 1)
    } else {
        i
    }
}

/// The first offset at or after `i` and before `end` that holds `c`, else `end`.
pub open spec fn find_byte(t: Seq<u8>, end: int, i: int, c: u8) -> int
    decreases end - i,
{
    if i >= end {
        end
    } else if t[i] == c {
        i
    } else {
        find_byte(t, end, i + 1, c)
    }
}

/// The first offset at or after `i` and before `end` that holds `c1` or `c2`, else `end`.
pub open spec fn find_either(t: Seq<u8>, end: int, i: int, c1: u8, c2: u8) -> int
    decreases end - i,
{
    if i >= end {
        end
    } else if t[i] == c1 || t[i] == c2 {
        i
    } else {
        find_either(t, end, i + 1, c1, c2)
    }
}

/// The offset of the first `)` at or after `i` (and before `end`) that is not
/// matched by a `(` after `i`, with `depth` groups already open, else `end`.
pub open spec fn closing_paren(t: Seq<u8>, end: int, i: int, depth: nat) -> int
    decreases end - i,
{
    if i >= end {
        end
    } else if t[i] == 0x28u8 {
        closing_paren(t, end, i + 1, depth + 1)
    } else if t[i] == 0x29u8 {
        if depth == 0 {
            i
        } else {
            closing_paren(t, end, i + 1, (depth - 1) as nat)
        }
    } else {
        closing_paren(t, end, i + 1, depth)
    }
}

/// Offset `i` touches an ASCII byte of `t`: the byte at `i` or the one before it.
pub open spec fn next_to_ascii(t: Seq<u8>, i: int) -> bool {
    (0 <= i < t.len() && t[i] < 0x80u8) || (0 < i <= t.len() && t[i - 1] < 0x80u8)
}

/// In valid UTF-8, the offsets on both sides of an ASCII byte are character boundaries.
proof fn lemma_ascii_boundaries(b: Seq<u8>, j: int)
    requires
        valid_utf8(b),
        0 <= j < b.len(),
        b[j] < 0x80u8,
    ensures
        is_char_boundary(b, j),
        is_char_boundary(b, j + 1),
    decreases b.len(),
{
    let k = length_of_first_scalar(b);
    let rest = pop_first_scalar(b);
    if j == 0 {
        assert(k == 1);
        assert(is_char_boundary(rest, 0));
    } else {
        assert(k <= j);
        assert(rest[j - k] == b[j]);
        lemma_ascii_boundaries(rest, j - k);
    }
}

/// An offset next to an ASCII byte is a character boundary.
proof fn lemma_boundary_next_to_ascii(b: Seq<u8>, i: int)
    requires
        valid_utf8(b),
        next_to_ascii(b, i),
    ensures
        is_char_boundary(b, i),
{
    if 0 <= i < b.len() && b[i] < 0x80u8 {
        lemma_ascii_boundaries(b, i);
    } else {
        lemma_ascii_boundaries(b, i - 1);
    }
}

/// The part of `text` between byte offsets `a` and `b`.
fn str_between<'a>(text: &'a str, a: usize, b: usize) -> (r: &'a str)
    requires
        a <= b <= text.spec_bytes().len(),
        next_to_ascii(text.spec_bytes(), a as int),
        next_to_ascii(text.spec_bytes(), b as int),
    ensures
        r.spec_bytes() == text.spec_bytes().subrange(a as int, b as int),
{
    let ghost t = text.spec_bytes();
    proof {
        lemma_boundary_next_to_ascii(t, a as int);
    }
    let (_, rest) = text.split_at(a);
    let ghost u = rest.spec_bytes();
    proof {
        if b > a {
            if (b as int) < t.len() && t[b as int] < 0x80u8 {
                assert(u[b - a] == t[b as int]);
            } else {
                assert(u[b - a - 1] == t[b - 1]);
            }
            lemma_boundary_next_to_ascii(u, (b - a) as int);
        }
    }
    let (r, _) = rest.split_at(b - a);
    assert(r.spec_bytes() =~= t.subrange(a as int, b as int));
    r
}

/// Returns whether `c` is ASCII whitespace.
pub fn is_space(c: u8) -> (r: bool)
    ensures
        r == is_space_byte(c),
{
    c == 0x20u8 || c == 0x09u8 || c == 0x0Au8 || c == 0x0Du8 || c == 0x0Cu8
}

/// A cursor over the bytes of a text, which stops at `end`.
pub(crate) struct Stream<'a> {
    pub(crate) text: &'a str,
    pub(crate) bytes: &'a [u8],
    pub(crate) pos: usize,
    pub(crate) end: usize,
}

impl<'a> Stream<'a> {
    /// The bytes are those of the text, and the cursor and the bound lie within them.
    pub(crate) open spec fn wf(&self) -> bool {
        &&& self.bytes@ == self.text.spec_bytes()
        &&& self.pos <= self.end
        &&& self.end <= self.bytes@.len()
    }

    /// The two streams read the same bytes up to the same bound.
    pub(crate) open spec fn same_source(&self, other: &Stream<'a>) -> bool {
        &&& self.text == other.text
        &&& self.bytes@ == other.bytes@
        &&& self.end == other.end
    }

    /// The error for an unexpected byte at the current offset.
    pub(crate) open spec fn error_here(&self) -> Error {
        Error::UnknownToken(position_of(self.bytes@, self.pos as int))
    }

    /// A stream over the whole of `text`.
    pub(crate) fn new(text: &'a str) -> (r: Stream<'a>)
        ensures
            r.wf(),
            r.text == text,
            r.pos == 0,
            r.end == text.spec_bytes().len(),
    {
        let bytes = text.as_bytes();
        Stream { text, bytes, pos: 0, end: bytes.len() }
    }

    /// A stream over the bytes of `text` from `start` up to `end`; offsets stay those of `text`.
    pub(crate) fn new_bound(text: &'a str, start: usize, end: usize) -> (r: Stream<'a>)
        requires
            start <= end <= text.spec_bytes().len(),
        ensures
            r.wf(),
            r.text == text,
            r.pos == start,
            r.end == end,
    {
        let bytes = text.as_bytes();
        Stream { text, bytes, pos: start, end }
    }

    /// The current offset in the text.
    pub(crate) fn pos(&self) -> (r: usize)
        ensures
            r == self.pos,
    {
        self.pos
    }

    /// Whether the cursor has reached the bound.
    pub(crate) fn at_end(&self) -> (r: bool)
        requires
            self.wf(),
        ensures
            r == (self.pos == self.end),
    {
        self.pos >= self.end
    }

    /// The byte under the cursor, which is before the bound.
    pub(crate) fn curr_char_raw(&self) -> (r: u8)
        requires
            self.wf(),
            self.pos < self.end,
        ensures
            r == self.bytes@[self.pos as int],
    {
        self.bytes[self.pos]
    }

    /// Whether the byte under the cursor, which is before the bound, is `c`.
    pub(crate) fn curr_char_raw_eq(&self, c: u8) -> (r: bool)
        requires
            self.wf(),
            self.pos < self.end,
        ensures
            r == (self.bytes@[self.pos as int] == c),
    {
        self.bytes[self.pos] == c
    }

    /// The byte under the cursor; an error at the bound.
    pub(crate) fn curr_char(&self) -> (r: Result<u8, Error>)
        requires
            self.wf(),
        ensures
            self.pos < self.end ==> r == Ok::<u8, Error>(self.bytes@[self.pos as int]),
            self.pos == self.end ==> r == Err::<u8, Error>(self.error_here()),
    {
        if self.at_end() {
            Err(Error::UnknownToken(self.gen_error_pos()))
        } else {
            Ok(self.curr_char_raw())
        }
    }

    /// Whether the byte under the cursor is `c`; an error at the bound.
    pub(crate) fn is_char_eq(&self, c: u8) -> (r: Result<bool, Error>)
        requires
            self.wf(),
        ensures
            self.pos < self.end ==> r == Ok::<bool, Error>(self.bytes@[self.pos as int] == c),
            self.pos == self.end ==> r == Err::<bool, Error>(self.error_here()),
    {
        match self.curr_char() {
            Ok(b) => Ok(b == c),
            Err(e) => Err(e),
        }
    }

    /// Moves the cursor `n` bytes forward, not past the bound.
    pub(crate) fn advance_raw(&mut self, n: usize)
        requires
            old(self).wf(),
            old(self).pos + n <= old(self).end,
        ensures
            final(self).wf(),
            final(self).same_source(old(self)),
            final(self).pos == old(self).pos + n,
    {
        self.pos = self.pos + n;
    }

    /// Whether the byte under the cursor, which is before the bound, is whitespace.
    pub(crate) fn is_space_raw(&self) -> (r: bool)
        requires
            self.wf(),
            self.pos < self.end,
        ensures
            r == is_space_byte(self.bytes@[self.pos as int]),
    {
        is_space(self.bytes[self.pos])
    }

    /// Whether the byte under the cursor, which is before the bound, is an identifier byte.
    pub(crate) fn is_ident_raw(&self) -> (r: bool)
        requires
            self.wf(),
            self.pos < self.end,
        ensures
            r == is_ident_byte(self.bytes@[self.pos as int]),
    {
        let c = self.bytes[self.pos];
        (0x61u8 <= c && c <= 0x7Au8) || (0x41u8 <= c && c <= 0x5Au8) || (0x30u8 <= c && c <= 0x39u8)
            || c == 0x2Du8 || c == 0x5Fu8
    }

    /// Moves past the whitespace at the cursor.
    pub(crate) fn skip_spaces(&mut self)
        requires
            old(self).wf(),
        ensures
            final(self).wf(),
            final(self).same_source(old(self)),
            final(self).pos == skip_spaces_from(old(self).bytes@, old(self).end as int, old(self).pos as int),
    {
        while self.pos < self.end && is_space(self.bytes[self.pos])
            invariant
                self.wf(),
                self.same_source(old(self)),
                skip_spaces_from(self.bytes@, self.end as int, self.pos as int)
                    == skip_spaces_from(old(self).bytes@, old(self).end as int, old(self).pos as int),
            decreases self.end - self.pos,
        {
            self.pos = self.pos + 1;
        }
    }

    /// The number of bytes before the next `c`; an error when no `c` comes before the end.
    pub(crate) fn length_to(&self, c: u8) -> (r: Result<usize, Error>)
        requires
            self.wf(),
        ensures
            ({
                let f = find_byte(self.bytes@, self.end as int, self.pos as int, c);
                &&& f < self.end ==> r == Ok::<usize, Error>((f - self.pos) as usize)
                &&& f >= self.end ==> r == Err::<usize, Error>(self.error_here())
            }),
    {
        let mut i = self.pos;
        while i < self.end
            invariant
                self.wf(),
                self.pos <= i <= self.end,
                find_byte(self.bytes@, self.end as int, i as int, c)
                    == find_byte(self.bytes@, self.end as int, self.pos as int, c),
            decreases self.end - i,
        {
            if self.bytes[i] == c {
                return Ok(i - self.pos);
            }
            i = i + 1;
        }
        Err(Error::UnknownToken(self.gen_error_pos()))
    }

    /// The number of bytes before the `)` that closes a group opened just
    /// before the cursor; an error when the group is not closed before the end.
    pub(crate) fn length_to_closing_paren(&self) -> (r: Result<usize, Error>)
        requires
            self.wf(),
        ensures
            ({
                let f = closing_paren(self.bytes@, self.end as int, self.pos as int, 0);
                &&& f < self.end ==> r == Ok::<usize, Error>((f - self.pos) as usize)
                &&& f >= self.end ==> r == Err::<usize, Error>(self.error_here())
            }),
    {
        let mut i = self.pos;
        let mut depth: usize = 0;
        while i < self.end
            invariant
                self.wf(),
                self.pos <= i <= self.end,
                depth <= i - self.pos,
                closing_paren(self.bytes@, self.end as int, i as int, depth as nat)
                    == closing_paren(self.bytes@, self.end as int, self.pos as int, 0),
            decreases self.end - i,
        {
            let c = self.bytes[i];
            if c == 0x28u8 {
                depth = depth + 1;
            } else if c == 0x29u8 {
                if depth == 0 {
                    return Ok(i - self.pos);
                }
                depth = depth - 1;
            }
            i = i + 1;
        }
        Err(Error::UnknownToken(self.gen_error_pos()))
    }

    /// The number of bytes before the next `c1` or `c2`; an error when neither comes before the end.
    pub(crate) fn length_to_either(&self, c1: u8, c2: u8) -> (r: Result<usize, Error>)
        requires
            self.wf(),
        ensures
            ({
                let f = find_either(self.bytes@, self.end as int, self.pos as int, c1, c2);
                &&& f < self.end ==> r == Ok::<usize, Error>((f - self.pos) as usize)
                &&& f >= self.end ==> r == Err::<usize, Error>(self.error_here())
            }),
    {
        let mut i = self.pos;
        while i < self.end
            invariant
                self.wf(),
                self.pos <= i <= self.end,
                find_either(self.bytes@, self.end as int, i as int, c1, c2)
                    == find_either(self.bytes@, self.end as int, self.pos as int, c1, c2),
            decreases self.end - i,
        {
            if self.bytes[i] == c1 || self.bytes[i] == c2 {
                return Ok(i - self.pos);
            }
            i = i + 1;
        }
        Err(Error::UnknownToken(self.gen_error_pos()))
    }

    /// The next `n` bytes as text; the cursor moves past them.
    pub(crate) fn read_raw_str(&mut self, n: usize) -> (r: &'a str)
        requires
            old(self).wf(),
            old(self).pos + n <= old(self).end,
            next_to_ascii(old(self).bytes@, old(self).pos as int),
            next_to_ascii(old(self).bytes@, old(self).pos + n),
        ensures
            final(self).wf(),
            final(self).same_source(old(self)),
            final(self).pos == old(self).pos + n,
            r.spec_bytes() == old(self).bytes@.subrange(old(self).pos as int, old(self).pos + n),
    {
        let s = str_between(self.text, self.pos, self.pos + n);
        self.pos = self.pos + n;
        s
    }

    /// The text between offsets `a` and `b`; the cursor stays.
    pub(crate) fn slice_region_raw_str(&self, a: usize, b: usize) -> (r: &'a str)
        requires
            self.wf(),
            a <= b <= self.end,
            next_to_ascii(self.bytes@, a as int),
            next_to_ascii(self.bytes@, b as int),
        ensures
            r.spec_bytes() == self.bytes@.subrange(a as int, b as int),
    {
        str_between(self.text, a, b)
    }

    /// The line and column of the cursor, counted from the start of the whole text.
    pub(crate) fn gen_error_pos(&self) -> (r: ErrorPos)
        requires
            self.wf(),
        ensures
            r == position_of(self.bytes@, self.pos as int),
    {
        let mut line: u32 = 1;
        let mut col: u32 = 1;
        let mut i: usize = 0;
        while i < self.pos
            invariant
                self.wf(),
                i <= self.pos,
                position_of(self.bytes@, i as int) == (ErrorPos { line, col }),
            decreases self.pos - i,
        {
            proof {
                lemma_line_bounds(self.bytes@, i as int);
                assert(line_feeds(self.bytes@, i + 1) == line_feeds(self.bytes@, i as int) + if self.bytes@[i as int] == 0x0Au8 { 1int } else { 0int });
            }
            if self.bytes[i] == 0x0Au8 {
                if line < u32::MAX {
                    line = line + 1;
                }
                col = 1;
            } else if col < u32::MAX {
                col = col + 1;
            }
            i = i + 1;
        }
        ErrorPos { line, col }
    }
}


pub proof fn lemma_skip_spaces(t: Seq<u8>, end: int, i: int)
    requires
        i <= end,
    ensures
        i <= skip_spaces_from(t, end, i) <= end,
        skip_spaces_from(t, end, i) < end ==> !is_space_byte(t[skip_spaces_from(t, end, i)]),
        skip_spaces_from(t, end, i) > i ==> is_space_byte(t[skip_spaces_from(t, end, i) - 1]),
        skip_spaces_from(t, end, i) > i ==> is_space_byte(t[i]),
    decreases end - i,
{
    if i < end && is_space_byte(t[i]) {
        lemma_skip_spaces(t, end, i + 1);
    }
}

pub proof fn lemma_ident_end(t: Seq<u8>, end: int, i: int)
    requires
        i <= end,
    ensures
        i <= ident_end(t, end, i) <= end,
        ident_end(t, end, i) < end ==> !is_ident_byte(t[ident_end(t, end, i)]),
        ident_end(t, end, i) > i ==> t[ident_end(t, end, i) - 1] < 0x80u8,
        ident_end(t, end, i) > i ==> t[i] < 0x80u8,
    decreases end - i,
{
    if i < end && is_ident_byte(t[i]) {
        lemma_ident_end(t, end, i + 1);
    }
}

pub proof fn lemma_find_byte(t: Seq<u8>, end: int, i: int, c: u8)
    requires
        i <= end,
    ensures
        i <= find_byte(t, end, i, c) <= end,
        find_byte(t, end, i, c) < end ==> t[find_byte(t, end, i, c)] == c,
    decreases end - i,
{
    if i < end && t[i] != c {
        lemma_find_byte(t, end, i + 1, c);
    }
}

pub proof fn lemma_closing_paren(t: Seq<u8>, end: int, i: int, depth: nat)
    requires
        i <= end,
    ensures
        i <= closing_paren(t, end, i, depth) <= end,
        closing_paren(t, end, i, depth) < end ==> t[closing_paren(t, end, i, depth)] == 0x29u8,
    decreases end - i,
{
    if i < end {
        if t[i] == 0x28u8 {
            lemma_closing_paren(t, end, i + 1, depth + 1);
        } else if t[i] == 0x29u8 {
            if depth > 0 {
                lemma_closing_paren(t, end, i + 1, (depth - 1) as nat);
            }
        } else {
            lemma_closing_paren(t, end, i + 1, depth);
        }
    }
}

pub proof fn lemma_find_either(t: Seq<u8>, end: int, i: int, c1: u8, c2: u8)
    requires
        i <= end,
    ensures
        i <= find_either(t, end, i, c1, c2) <= end,
        find_either(t, end, i, c1, c2) < end ==> (t[find_either(t, end, i, c1, c2)] == c1 || t[
            find_either(t, end, i, c1, c2)
        ] == c2),
    decreases end - i,
{
    if i < end && t[i] != c1 && t[i] != c2 {
        lemma_find_either(t, end, i + 1, c1, c2);
    }
}

} // verus!
