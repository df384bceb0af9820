//! A call reads whitespace and comments, then one token as written, then
//! whitespace and comments again: the text is the tokens as written, in order,
//! with whitespace and comments between them.
use vstd::prelude::*;
use crate::bytes::{
    ASTERISK, AT_SIGN, COLON, COMMA, DOT, HASH, LEFT_BRACE, LEFT_BRACKET, LEFT_PAREN, RIGHT_BRACE,
    RIGHT_BRACKET, SEMICOLON, SLASH,
};
use crate::laws::{lemma_dispatch_valid, spans_within};
use crate::scan::{
    at, block_step, comment_end, dispatch, flags, is_combinator_byte, lemma_comment_end,
    lemma_last_solid, lemma_paren_scan, lemma_separators_end, next_spec, paren_scan, rule_step,
    run, scan_attribute, scan_comment, scan_parens, scan_property, scan_pseudo, scan_rule_space,
    scan_value, scan_word, take_ident, valid_state, Lexeme, Scan, ScanState, Span, State,
};
use crate::stream::{
    find_byte, find_either, ident_end, is_space_byte, lemma_closing_paren, lemma_find_byte,
    lemma_find_either, lemma_ident_end, lemma_skip_spaces, skip_spaces_from,
};

verus! {

/// The bytes `[a, b)` are whitespace and comments, each comment as
/// `comment_end` delimits it.
pub open spec fn trivia(t: Seq<u8>, end: int, a: int, b: int) -> bool
    decreases b - a,
{
    if a >= b {
        a == b
    } else if is_space_byte(t[a]) {
        trivia(t, end, a + 1, b)
    } else if t[a] == SLASH && comment_end(t, end, a) is Ok && a < comment_end(t, end, a)->Ok_0
        <= b {
        trivia(t, end, comment_end(t, end, a)->Ok_0, b)
    } else {
        false
    }
}

/// The bytes `[a, b)` are whitespace and comments up to `lead`, the token `l`
/// as written from `lead` up to `tail`, with its texts in it, then whitespace
/// and comments.
pub open spec fn reads_as(
    t: Seq<u8>,
    end: int,
    a: int,
    l: Lexeme,
    b: int,
    lead: int,
    tail: int,
) -> bool {
    &&& a <= lead < tail <= b
    &&& trivia(t, end, a, lead)
    &&& spans_within(l, lead, tail)
    &&& trivia(t, end, tail, b)
}

/// What one pass from `s` to `s1` with outcome `o` read, with `w` the bounds
/// of the token as written.
spec fn pass_reads(t: Seq<u8>, end: int, s: ScanState, s1: ScanState, o: Scan, w: (int, int)) -> bool {
    &&& o is Again ==> trivia(t, end, s.pos, s1.pos)
    &&& o is Emit && o->Emit_0 != Lexeme::EndOfStream ==> reads_as(
        t,
        end,
        s.pos,
        o->Emit_0,
        s1.pos,
        w.0,
        w.1,
    )
}

proof fn lemma_trivia_spaces(t: Seq<u8>, end: int, i: int)
    requires
        i <= end,
    ensures
        trivia(t, end, i, skip_spaces_from(t, end, i)),
    decreases end - i,
{
    lemma_skip_spaces(t, end, i);
    if i < end && is_space_byte(t[i]) {
        lemma_trivia_spaces(t, end, i + 1);
    }
}

proof fn lemma_trivia_comment(t: Seq<u8>, end: int, a: int)
    requires
        0 <= a < end,
        t[a] == SLASH,
        comment_end(t, end, a) is Ok,
    ensures
        trivia(t, end, a, comment_end(t, end, a)->Ok_0),
{
    lemma_comment_end(t, end, a);
    let c = comment_end(t, end, a)->Ok_0;
    assert(trivia(t, end, c, c));
}

proof fn lemma_trivia_join(t: Seq<u8>, end: int, a: int, b: int, c: int)
    requires
        trivia(t, end, a, b),
        trivia(t, end, b, c),
    ensures
        trivia(t, end, a, c),
    decreases b - a,
{
    if a < b {
        if is_space_byte(t[a]) {
            lemma_trivia_join(t, end, a + 1, b, c);
        } else {
            lemma_trivia_join(t, end, comment_end(t, end, a)->Ok_0, b, c);
        }
    }
}

proof fn lemma_trivia_empty(t: Seq<u8>, end: int, a: int)
    ensures
        trivia(t, end, a, a),
{
}

/// A token that ends at `tail` and is followed by whitespace up to `b`.
proof fn lemma_token_then_spaces(t: Seq<u8>, end: int, a: int, l: Lexeme, tail: int)
    requires
        a < tail <= end,
        spans_within(l, a, tail),
    ensures
        reads_as(t, end, a, l, skip_spaces_from(t, end, tail), a, tail),
{
    lemma_trivia_empty(t, end, a);
    lemma_trivia_spaces(t, end, tail);
    lemma_skip_spaces(t, end, tail);
}

proof fn lemma_reads_pseudo(t: Seq<u8>, end: int, s: ScanState) -> (w: (int, int))
    requires
        valid_state(t, end, s),
        s.pos < end,
    ensures
        pass_reads(t, end, s, scan_pseudo(t, end, s).0, scan_pseudo(t, end, s).1, w),
{
    let p = s.pos + 1;
    if p < end {
        let p2 = if t[p] == COLON { p + 1 } else { p };
        lemma_ident_end(t, end, p2);
        let q = ident_end(t, end, p2);
        if q < end {
            lemma_closing_paren(t, end, q + 1, 0);
        }
    }
    let s1 = scan_pseudo(t, end, s).0;
    lemma_trivia_empty(t, end, s.pos);
    lemma_trivia_empty(t, end, s1.pos);
    (s.pos, s1.pos)
}

proof fn lemma_reads_attribute(t: Seq<u8>, end: int, s: ScanState) -> (w: (int, int))
    requires
        valid_state(t, end, s),
        s.pos < end,
    ensures
        pass_reads(t, end, s, scan_attribute(t, end, s).0, scan_attribute(t, end, s).1, w),
{
    lemma_find_byte(t, end, s.pos + 1, RIGHT_BRACKET);
    let f = find_byte(t, end, s.pos + 1, RIGHT_BRACKET);
    if f < end {
        lemma_token_then_spaces(t, end, s.pos, scan_attribute(t, end, s).1->Emit_0, f + 1);
    }
    (s.pos, f + 1)
}

proof fn lemma_reads_parens(t: Seq<u8>, end: int, s: ScanState) -> (w: (int, int))
    requires
        valid_state(t, end, s),
        s.pos < end,
    ensures
        pass_reads(t, end, s, scan_parens(t, end, s).0, scan_parens(t, end, s).1, w),
{
    lemma_paren_scan(t, end, s.pos + 1, 1, None);
    let q = paren_scan(t, end, s.pos + 1, 1, None).0;
    if paren_scan(t, end, s.pos + 1, 1, None).1 == 0 {
        lemma_token_then_spaces(t, end, s.pos, scan_parens(t, end, s).1->Emit_0, q);
    }
    (s.pos, q)
}

proof fn lemma_reads_comment(t: Seq<u8>, end: int, s: ScanState) -> (w: (int, int))
    requires
        valid_state(t, end, s),
        s.pos < end,
        t[s.pos] == SLASH,
    ensures
        pass_reads(t, end, s, scan_comment(t, end, s).0, scan_comment(t, end, s).1, w),
{
    if comment_end(t, end, s.pos) is Ok {
        lemma_trivia_comment(t, end, s.pos);
    }
    (0, 0)
}

proof fn lemma_reads_word(t: Seq<u8>, end: int, s: ScanState) -> (w: (int, int))
    requires
        valid_state(t, end, s),
    ensures
        pass_reads(t, end, s, scan_word(t, end, s).0, scan_word(t, end, s).1, w),
{
    lemma_ident_end(t, end, s.pos);
    let q = ident_end(t, end, s.pos);
    lemma_trivia_empty(t, end, s.pos);
    lemma_trivia_empty(t, end, q);
    (s.pos, q)
}

proof fn lemma_reads_value(t: Seq<u8>, end: int, s: ScanState, name: Span) -> (w: (int, int))
    requires
        valid_state(t, end, s),
        s.pos < end,
        0 <= name.start <= name.end <= s.pos,
    ensures
        scan_value(t, end, s, name).1 is Emit ==> reads_as(
            t,
            end,
            name.start,
            scan_value(t, end, s, name).1->Emit_0,
            scan_value(t, end, s, name).0.pos,
            w.0,
            w.1,
        ),
{
    let p3 = skip_spaces_from(t, end, s.pos + 1);
    lemma_skip_spaces(t, end, s.pos + 1);
    if p3 < end {
        lemma_comment_end(t, end, p3);
    }
    let c3 = if p3 < end && t[p3] == SLASH {
        comment_end(t, end, p3)
    } else {
        Ok(p3)
    };
    let s2 = scan_value(t, end, s, name).0;
    if c3 is Ok {
        let p4 = c3->Ok_0;
        lemma_find_either(t, end, p4, SEMICOLON, RIGHT_BRACE);
        let f = find_either(t, end, p4, SEMICOLON, RIGHT_BRACE);
        if f < end {
            lemma_separators_end(t, end, f);
            lemma_last_solid(t, p4, f);
        }
    }
    lemma_trivia_empty(t, end, s2.pos);
    lemma_trivia_empty(t, end, name.start);
    (name.start, s2.pos)
}

proof fn lemma_reads_property(t: Seq<u8>, end: int, s: ScanState) -> (w: (int, int))
    requires
        valid_state(t, end, s),
        s.pos < end,
    ensures
        pass_reads(t, end, s, scan_property(t, end, s).0, scan_property(t, end, s).1, w),
{
    reveal(scan_property);
    lemma_ident_end(t, end, s.pos);
    let (s1, name) = take_ident(t, end, s);
    lemma_trivia_empty(t, end, s.pos);
    if name is Some {
        let p1 = skip_spaces_from(t, end, s1.pos);
        lemma_skip_spaces(t, end, s1.pos);
        lemma_trivia_spaces(t, end, s1.pos);
        if p1 < end {
            lemma_comment_end(t, end, p1);
        }
        let c1 = if p1 < end && t[p1] == SLASH {
            comment_end(t, end, p1)
        } else {
            Ok(p1)
        };
        if c1 is Ok && c1->Ok_0 < end {
            let p2 = c1->Ok_0;
            if p1 < end && t[p1] == SLASH {
                lemma_trivia_comment(t, end, p1);
                lemma_trivia_join(t, end, s1.pos, p1, p2);
            }
            if t[p2] != COLON {
                return (s.pos, s1.pos);
            } else {
                let w = lemma_reads_value(t, end, at(s, p2), name->Some_0);
                return w;
            }
        }
    }
    (s.pos, s1.pos)
}

proof fn lemma_reads_rule_space(t: Seq<u8>, end: int, s: ScanState) -> (w: (int, int))
    requires
        valid_state(t, end, s),
        s.pos < end,
        is_space_byte(t[s.pos]),
        s.mode == State::Rule,
    ensures
        pass_reads(t, end, s, scan_rule_space(t, end, s).0, scan_rule_space(t, end, s).1, w),
{
    lemma_skip_spaces(t, end, s.pos);
    lemma_trivia_spaces(t, end, s.pos);
    let p = skip_spaces_from(t, end, s.pos);
    lemma_trivia_empty(t, end, s.pos);
    lemma_trivia_empty(t, end, p);
    if s.after_selector && p < end && !(t[p] == LEFT_BRACE || t[p] == SLASH
        || is_combinator_byte(t[p]) || t[p] == ASTERISK || t[p] == LEFT_PAREN)
        && s.has_at_rule {
        let w = lemma_reads_word(t, end, flags(s, false, true, p));
        if scan_word(t, end, flags(s, false, true, p)).1 is Emit {
            lemma_trivia_join(t, end, s.pos, p, w.0);
        }
        return w;
    }
    (s.pos, p)
}

proof fn lemma_reads_rule_step(t: Seq<u8>, end: int, s: ScanState) -> (w: (int, int))
    requires
        valid_state(t, end, s),
        s.pos < end,
        s.mode == State::Rule,
    ensures
        pass_reads(t, end, s, rule_step(t, end, s).0, rule_step(t, end, s).1, w),
{
    let c = t[s.pos];
    let o = rule_step(t, end, s).1;
    lemma_ident_end(t, end, s.pos + 1);
    lemma_trivia_empty(t, end, s.pos);
    lemma_trivia_empty(t, end, ident_end(t, end, s.pos + 1));
    if c == COLON {
        lemma_reads_pseudo(t, end, s)
    } else if c == LEFT_BRACKET {
        lemma_reads_attribute(t, end, s)
    } else if c == SLASH {
        lemma_reads_comment(t, end, s)
    } else if c == LEFT_PAREN && s.has_at_rule {
        lemma_reads_parens(t, end, s)
    } else if is_space_byte(c) && c != AT_SIGN {
        lemma_reads_rule_space(t, end, s)
    } else if c == AT_SIGN || c == HASH || c == DOT {
        (s.pos, ident_end(t, end, s.pos + 1))
    } else if c == ASTERISK || c == COMMA || is_combinator_byte(c) {
        if o is Emit {
            lemma_token_then_spaces(t, end, s.pos, o->Emit_0, s.pos + 1);
        }
        (s.pos, s.pos + 1)
    } else if c == LEFT_BRACE {
        lemma_trivia_empty(t, end, s.pos + 1);
        (s.pos, s.pos + 1)
    } else {
        lemma_reads_word(t, end, s)
    }
}

proof fn lemma_reads_block_step(t: Seq<u8>, end: int, s: ScanState) -> (w: (int, int))
    requires
        valid_state(t, end, s),
        s.pos < end,
        s.mode != State::Rule,
    ensures
        pass_reads(t, end, s, block_step(t, end, s).0, block_step(t, end, s).1, w),
{
    let c = t[s.pos];
    let o = block_step(t, end, s).1;
    lemma_ident_end(t, end, s.pos + 1);
    lemma_ident_end(t, end, s.pos);
    lemma_trivia_empty(t, end, s.pos);
    lemma_trivia_empty(t, end, ident_end(t, end, s.pos + 1));
    if c == COLON {
        lemma_reads_pseudo(t, end, s)
    } else if c == LEFT_BRACKET {
        lemma_reads_attribute(t, end, s)
    } else if c == SLASH {
        lemma_reads_comment(t, end, s)
    } else if c == LEFT_PAREN && s.has_at_rule {
        lemma_reads_parens(t, end, s)
    } else if c == RIGHT_BRACE || c == LEFT_BRACE || c == ASTERISK
        || c == COMMA || is_combinator_byte(c) {
        if o is Emit {
            lemma_token_then_spaces(t, end, s.pos, o->Emit_0, s.pos + 1);
        }
        (s.pos, s.pos + 1)
    } else if c == HASH || c == DOT {
        (s.pos, ident_end(t, end, s.pos + 1))
    } else if c == AT_SIGN {
        let q = ident_end(t, end, s.pos + 1);
        if o is Emit {
            lemma_token_then_spaces(t, end, s.pos, o->Emit_0, q);
        }
        (s.pos, q)
    } else if s.has_at_rule {
        let q = ident_end(t, end, s.pos);
        if o is Emit {
            lemma_token_then_spaces(t, end, s.pos, o->Emit_0, q);
        }
        (s.pos, q)
    } else {
        lemma_reads_property(t, end, s)
    }
}

proof fn lemma_reads_dispatch(t: Seq<u8>, end: int, s: ScanState) -> (w: (int, int))
    requires
        valid_state(t, end, s),
        s.pos < end,
    ensures
        pass_reads(t, end, s, dispatch(t, end, s).0, dispatch(t, end, s).1, w),
{
    if s.mode == State::Rule {
        lemma_reads_rule_step(t, end, s)
    } else {
        lemma_skip_spaces(t, end, s.pos);
        lemma_trivia_spaces(t, end, s.pos);
        let p = skip_spaces_from(t, end, s.pos);
        if p < end {
            let w = lemma_reads_block_step(t, end, at(s, p));
            let (s1, o) = block_step(t, end, at(s, p));
            if o is Again {
                lemma_trivia_join(t, end, s.pos, p, s1.pos);
            }
            if o is Emit && o->Emit_0 != Lexeme::EndOfStream {
                lemma_trivia_join(t, end, s.pos, p, w.0);
            }
            w
        } else {
            (0, 0)
        }
    }
}

/// What the passes from `s` up to a token read.
proof fn lemma_reads_run(t: Seq<u8>, end: int, s: ScanState) -> (w: (int, int))
    requires
        valid_state(t, end, s),
    ensures
        run(t, end, s).1 == Scan::Emit(Lexeme::EndOfStream) ==> trivia(t, end, s.pos, run(t, end, s).0.pos),
        run(t, end, s).1 is Emit && run(t, end, s).1->Emit_0 != Lexeme::EndOfStream ==> reads_as(
            t,
            end,
            s.pos,
            run(t, end, s).1->Emit_0,
            run(t, end, s).0.pos,
            w.0,
            w.1,
        ),
    decreases end - s.pos,
{
    lemma_trivia_empty(t, end, s.pos);
    if s.pos < end {
        lemma_dispatch_valid(t, end, s);
        let w = lemma_reads_dispatch(t, end, s);
        let (s1, o) = dispatch(t, end, s);
        if o is Again && s.pos < s1.pos <= end {
            let w1 = lemma_reads_run(t, end, s1);
            let (s2, o2) = run(t, end, s1);
            if o2 == Scan::Emit(Lexeme::EndOfStream) {
                lemma_trivia_join(t, end, s.pos, s1.pos, s2.pos);
            }
            if o2 is Emit && o2->Emit_0 != Lexeme::EndOfStream {
                lemma_trivia_join(t, end, s.pos, s1.pos, w1.0);
            }
            w1
        } else {
            w
        }
    } else {
        (0, 0)
    }
}

/// A call reads whitespace and comments, then the token it returns as
/// written, which holds the texts of the token, then whitespace and comments
/// again; one that returns `EndOfStream` reads whitespace and comments alone.
/// As each call starts where the one before stopped, the text is the tokens
/// as written, in order, with whitespace and comments between them.
pub proof fn lemma_call_reads_token_between_trivia(t: Seq<u8>, end: int, s: ScanState)
    requires
        valid_state(t, end, s),
        next_spec(t, end, s).1 is Emit,
    ensures
        ({
            let (s2, o) = next_spec(t, end, s);
            &&& o->Emit_0 == Lexeme::EndOfStream ==> trivia(t, end, s.pos, s2.pos)
            &&& o->Emit_0 != Lexeme::EndOfStream ==> exists|lead: int, tail: int|
                reads_as(t, end, s.pos, o->Emit_0, s2.pos, lead, tail)
        }),
{
    lemma_skip_spaces(t, end, s.pos);
    lemma_trivia_spaces(t, end, s.pos);
    lemma_trivia_empty(t, end, s.pos);
    let s0 = if s.at_start {
        ScanState { at_start: false, pos: skip_spaces_from(t, end, s.pos), ..s }
    } else {
        s
    };
    let w = lemma_reads_run(t, end, s0);
    let (s2, o) = run(t, end, s0);
    if o == Scan::Emit(Lexeme::EndOfStream) {
        lemma_trivia_join(t, end, s.pos, s0.pos, s2.pos);
    } else {
        lemma_trivia_join(t, end, s.pos, s0.pos, w.0);
        assert(reads_as(t, end, s.pos, o->Emit_0, s2.pos, w.0, w.1));
    }
}

} // verus!
