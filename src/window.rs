//! A tokenizer bounded to a window of a text reads the window as it would
//! read the same bytes on their own: the same tokens, with every offset moved
//! by the start of the window.
use vstd::prelude::*;
use crate::bytes::{COLON, RIGHT_BRACE, RIGHT_BRACKET, SEMICOLON, SLASH};
use crate::laws::{lemma_blocks_balance, lemma_position_monotone_throughout, state_after};
use crate::scan::{
    at, block_step, comment_body, comment_end, dispatch, flags, last_solid, lemma_comment_end,
    lemma_paren_scan, next_spec, paren_scan, rule_step, run, scan_attribute,
    scan_comment, scan_parens, scan_property, scan_pseudo, scan_rule_space, scan_value, scan_word,
    separators_end, take_ident, valid_state, Lexeme, Scan, ScanState, Span, State,
};
use crate::stream::{
    closing_paren,    find_byte, find_either, ident_end, is_space_byte, lemma_find_byte, lemma_find_either,
    lemma_ident_end, lemma_skip_spaces, skip_spaces_from,
};

verus! {

pub open spec fn shift_span(sp: Span, k: int) -> Span {
    Span { start: sp.start + k, end: sp.end + k }
}

pub open spec fn shift_opt_span(sp: Option<Span>, k: int) -> Option<Span> {
    match sp {
        Some(p) => Some(shift_span(p, k)),
        None => None,
    }
}

/// The lexeme with every range moved by `k`.
pub open spec fn shift_lexeme(l: Lexeme, k: int) -> Lexeme {
    match l {
        Lexeme::TypeSelector(sp) => Lexeme::TypeSelector(shift_span(sp, k)),
        Lexeme::IdSelector(sp) => Lexeme::IdSelector(shift_span(sp, k)),
        Lexeme::ClassSelector(sp) => Lexeme::ClassSelector(shift_span(sp, k)),
        Lexeme::AttributeSelector(sp) => Lexeme::AttributeSelector(shift_span(sp, k)),
        Lexeme::PseudoClass { selector, value } => Lexeme::PseudoClass {
            selector: shift_span(selector, k),
            value: shift_opt_span(value, k),
        },
        Lexeme::DoublePseudoClass { selector, value } => Lexeme::DoublePseudoClass {
            selector: shift_span(selector, k),
            value: shift_opt_span(value, k),
        },
        Lexeme::Declaration(name, value) => Lexeme::Declaration(
            shift_span(name, k),
            shift_span(value, k),
        ),
        Lexeme::AtRule(sp) => Lexeme::AtRule(shift_span(sp, k)),
        Lexeme::AtStr(sp) => Lexeme::AtStr(shift_span(sp, k)),
        _ => l,
    }
}

pub open spec fn shift_scan(o: Scan, k: int) -> Scan {
    match o {
        Scan::Emit(l) => Scan::Emit(shift_lexeme(l, k)),
        _ => o,
    }
}

/// A state and an outcome, with the cursor and every range moved by `k`.
pub open spec fn shifted(r: (ScanState, Scan), k: int) -> (ScanState, Scan) {
    (at(r.0, r.0.pos + k), shift_scan(r.1, k))
}

pub open spec fn shift_offset(r: Result<int, int>, k: int) -> Result<int, int> {
    match r {
        Ok(p) => Ok(p + k),
        Err(p) => Err(p + k),
    }
}

/// The window `[start, end)` of `t`, and an offset `i` in it.
pub open spec fn in_window(t: Seq<u8>, start: int, end: int, i: int) -> bool {
    0 <= start <= i <= end <= t.len()
}

proof fn lemma_window_byte(t: Seq<u8>, start: int, end: int, i: int)
    requires
        0 <= start <= i < end <= t.len(),
    ensures
        t.subrange(start, end)[i - start] == t[i],
{
}

proof fn lemma_shift_skip(t: Seq<u8>, start: int, end: int, i: int)
    requires
        in_window(t, start, end, i),
    ensures
        skip_spaces_from(t, end, i) == skip_spaces_from(t.subrange(start, end), end - start, i
            - start) + start,
    decreases end - i,
{
    if i < end {
        lemma_window_byte(t, start, end, i);
        lemma_shift_skip(t, start, end, i + 1);
    }
}

proof fn lemma_shift_ident(t: Seq<u8>, start: int, end: int, i: int)
    requires
        in_window(t, start, end, i),
    ensures
        ident_end(t, end, i) == ident_end(t.subrange(start, end), end - start, i - start) + start,
    decreases end - i,
{
    if i < end {
        lemma_window_byte(t, start, end, i);
        lemma_shift_ident(t, start, end, i + 1);
    }
}

proof fn lemma_shift_find(t: Seq<u8>, start: int, end: int, i: int, c: u8)
    requires
        in_window(t, start, end, i),
    ensures
        find_byte(t, end, i, c) == find_byte(t.subrange(start, end), end - start, i - start, c)
            + start,
    decreases end - i,
{
    if i < end {
        lemma_window_byte(t, start, end, i);
        lemma_shift_find(t, start, end, i + 1, c);
    }
}

proof fn lemma_shift_closing_paren(t: Seq<u8>, start: int, end: int, i: int, depth: nat)
    requires
        in_window(t, start, end, i),
    ensures
        closing_paren(t, end, i, depth) == closing_paren(
            t.subrange(start, end),
            end - start,
            i - start,
            depth,
        ) + start,
    decreases end - i,
{
    if i < end {
        lemma_window_byte(t, start, end, i);
        lemma_shift_closing_paren(t, start, end, i + 1, depth + 1);
        lemma_shift_closing_paren(t, start, end, i + 1, depth);
        if depth > 0 {
            lemma_shift_closing_paren(t, start, end, i + 1, (depth - 1) as nat);
        }
    }
}

proof fn lemma_shift_find_either(t: Seq<u8>, start: int, end: int, i: int, c1: u8, c2: u8)
    requires
        in_window(t, start, end, i),
    ensures
        find_either(t, end, i, c1, c2) == find_either(
            t.subrange(start, end),
            end - start,
            i - start,
            c1,
            c2,
        ) + start,
    decreases end - i,
{
    if i < end {
        lemma_window_byte(t, start, end, i);
        lemma_shift_find_either(t, start, end, i + 1, c1, c2);
    }
}

proof fn lemma_shift_comment_body(t: Seq<u8>, start: int, end: int, i: int, head: int)
    requires
        in_window(t, start, end, i),
    ensures
        comment_body(t, end, i, head) == shift_offset(
            comment_body(t.subrange(start, end), end - start, i - start, head - start),
            start,
        ),
    decreases end - i,
{
    if i < end {
        lemma_window_byte(t, start, end, i);
        if i + 1 < end {
            lemma_window_byte(t, start, end, i + 1);
        }
        lemma_shift_comment_body(t, start, end, i + 1, head);
        lemma_shift_comment_body(t, start, end, i + 1, i + 1);
    }
}

proof fn lemma_shift_comment_end(t: Seq<u8>, start: int, end: int, p: int)
    requires
        in_window(t, start, end, p),
        p < end,
    ensures
        comment_end(t, end, p) == shift_offset(
            comment_end(t.subrange(start, end), end - start, p - start),
            start,
        ),
{
    if p + 1 < end {
        lemma_window_byte(t, start, end, p + 1);
        lemma_shift_comment_body(t, start, end, p + 2, p + 2);
    }
}

proof fn lemma_shift_parens(t: Seq<u8>, start: int, end: int, i: int, depth: nat, quote: Option<u8>)
    requires
        in_window(t, start, end, i),
    ensures
        paren_scan(t, end, i, depth, quote) == (
            paren_scan(t.subrange(start, end), end - start, i - start, depth, quote).0 + start,
            paren_scan(t.subrange(start, end), end - start, i - start, depth, quote).1,
        ),
    decreases end - i,
{
    if i < end {
        lemma_window_byte(t, start, end, i);
        if i + 1 < end {
            lemma_shift_parens(t, start, end, i + 2, depth, quote);
        }
        lemma_shift_parens(t, start, end, i + 1, depth, None);
        lemma_shift_parens(t, start, end, i + 1, depth, quote);
        lemma_shift_parens(t, start, end, i + 1, depth + 1, None);
        if depth > 0 {
            lemma_shift_parens(t, start, end, i + 1, (depth - 1) as nat, None);
        }
        lemma_shift_parens(t, start, end, i + 1, depth, Some(t[i]));
    }
}

proof fn lemma_shift_last_solid(t: Seq<u8>, start: int, end: int, a: int, b: int)
    requires
        in_window(t, start, end, a),
        a <= b <= end,
    ensures
        last_solid(t, a, b) == last_solid(t.subrange(start, end), a - start, b - start) + start,
    decreases b - a,
{
    if b > a {
        lemma_window_byte(t, start, end, b - 1);
        lemma_shift_last_solid(t, start, end, a, b - 1);
    }
}

proof fn lemma_shift_separators(t: Seq<u8>, start: int, end: int, i: int)
    requires
        in_window(t, start, end, i),
    ensures
        separators_end(t, end, i) == shift_offset(
            separators_end(t.subrange(start, end), end - start, i - start),
            start,
        ),
    decreases end - i,
{
    if i < end {
        lemma_window_byte(t, start, end, i);
        lemma_shift_separators(t, start, end, i + 1);
    }
}

proof fn lemma_shift_take_ident(t: Seq<u8>, start: int, end: int, s: ScanState)
    requires
        in_window(t, start, end, s.pos),
    ensures
        take_ident(t, end, s).0 == at(
            take_ident(t.subrange(start, end), end - start, at(s, s.pos - start)).0,
            take_ident(t.subrange(start, end), end - start, at(s, s.pos - start)).0.pos + start,
        ),
        take_ident(t, end, s).1 == shift_opt_span(
            take_ident(t.subrange(start, end), end - start, at(s, s.pos - start)).1,
            start,
        ),
{
    lemma_shift_ident(t, start, end, s.pos);
}

proof fn lemma_shift_pseudo(t: Seq<u8>, start: int, end: int, s: ScanState)
    requires
        in_window(t, start, end, s.pos),
        s.pos < end,
    ensures
        scan_pseudo(t, end, s) == shifted(scan_pseudo(t.subrange(start, end), end - start, at(s, s.pos - start)), start),
{
    let p = s.pos + 1;
    if p < end {
        lemma_window_byte(t, start, end, p);
        let p2 = if t[p] == COLON { p + 1 } else { p };
        lemma_shift_take_ident(t, start, end, at(s, p2));
        lemma_ident_end(t, end, p2);
        let q = ident_end(t, end, p2);
        if q < end {
            lemma_window_byte(t, start, end, q);
            lemma_shift_closing_paren(t, start, end, q + 1, 0);
        }
    }
}

proof fn lemma_shift_attribute(t: Seq<u8>, start: int, end: int, s: ScanState)
    requires
        in_window(t, start, end, s.pos),
        s.pos < end,
    ensures
        scan_attribute(t, end, s) == shifted(scan_attribute(t.subrange(start, end), end - start, at(s, s.pos - start)), start),
{
    lemma_shift_find(t, start, end, s.pos + 1, RIGHT_BRACKET);
    lemma_find_byte(t, end, s.pos + 1, RIGHT_BRACKET);
    let f = find_byte(t, end, s.pos + 1, RIGHT_BRACKET);
    if f < end {
        lemma_shift_skip(t, start, end, f + 1);
    }
}

proof fn lemma_shift_scan_parens(t: Seq<u8>, start: int, end: int, s: ScanState)
    requires
        in_window(t, start, end, s.pos),
        s.pos < end,
    ensures
        scan_parens(t, end, s) == shifted(scan_parens(t.subrange(start, end), end - start, at(s, s.pos - start)), start),
{
    lemma_shift_parens(t, start, end, s.pos + 1, 1, None);
    lemma_paren_scan(t, end, s.pos + 1, 1, None);
    lemma_shift_skip(t, start, end, paren_scan(t, end, s.pos + 1, 1, None).0);
}

proof fn lemma_shift_scan_comment(t: Seq<u8>, start: int, end: int, s: ScanState)
    requires
        in_window(t, start, end, s.pos),
        s.pos < end,
    ensures
        scan_comment(t, end, s) == shifted(scan_comment(t.subrange(start, end), end - start, at(s, s.pos - start)), start),
{
    lemma_shift_comment_end(t, start, end, s.pos);
}

proof fn lemma_shift_word(t: Seq<u8>, start: int, end: int, s: ScanState)
    requires
        in_window(t, start, end, s.pos),
    ensures
        scan_word(t, end, s) == shifted(scan_word(t.subrange(start, end), end - start, at(s, s.pos - start)), start),
{
    lemma_shift_take_ident(t, start, end, s);
}

proof fn lemma_shift_rule_space(t: Seq<u8>, start: int, end: int, s: ScanState)
    requires
        in_window(t, start, end, s.pos),
        s.pos < end,
    ensures
        scan_rule_space(t, end, s) == shifted(scan_rule_space(t.subrange(start, end), end - start, at(s, s.pos - start)), start),
{
    lemma_shift_skip(t, start, end, s.pos);
    lemma_skip_spaces(t, end, s.pos);
    let p = skip_spaces_from(t, end, s.pos);
    if p < end {
        lemma_window_byte(t, start, end, p);
    }
    lemma_shift_word(t, start, end, flags(s, false, true, p));
}

proof fn lemma_shift_value(t: Seq<u8>, start: int, end: int, s: ScanState, name: Span)
    requires
        in_window(t, start, end, s.pos),
        s.pos < end,
    ensures
        scan_value(t, end, s, name) == shifted(
            scan_value(
                t.subrange(start, end),
                end - start,
                at(s, s.pos - start),
                shift_span(name, -start),
            ),
            start,
        ),
{
    lemma_shift_skip(t, start, end, s.pos + 1);
    lemma_skip_spaces(t, end, s.pos + 1);
    let p3 = skip_spaces_from(t, end, s.pos + 1);
    if p3 < end {
        lemma_window_byte(t, start, end, p3);
        lemma_shift_comment_end(t, start, end, p3);
        lemma_comment_end(t, end, p3);
    }
    let c3 = if p3 < end && t[p3] == SLASH {
        comment_end(t, end, p3)
    } else {
        Ok(p3)
    };
    if c3 is Ok {
        let p4 = c3->Ok_0;
        lemma_shift_find_either(t, start, end, p4, SEMICOLON, RIGHT_BRACE);
        lemma_find_either(t, end, p4, SEMICOLON, RIGHT_BRACE);
        let f = find_either(t, end, p4, SEMICOLON, RIGHT_BRACE);
        if f < end {
            lemma_shift_separators(t, start, end, f);
            lemma_shift_last_solid(t, start, end, p4, f);
        }
    }
}

proof fn lemma_shift_property(t: Seq<u8>, start: int, end: int, s: ScanState)
    requires
        in_window(t, start, end, s.pos),
        s.pos < end,
    ensures
        scan_property(t, end, s) == shifted(
            scan_property(t.subrange(start, end), end - start, at(s, s.pos - start)),
            start,
        ),
{
    reveal(scan_property);
    lemma_shift_take_ident(t, start, end, s);
    lemma_ident_end(t, end, s.pos);
    let (s1, name) = take_ident(t, end, s);
    if name is Some {
        lemma_shift_skip(t, start, end, s1.pos);
        lemma_skip_spaces(t, end, s1.pos);
        let p1 = skip_spaces_from(t, end, s1.pos);
        if p1 < end {
            lemma_window_byte(t, start, end, p1);
            lemma_shift_comment_end(t, start, end, p1);
            lemma_comment_end(t, end, p1);
        }
        let c1 = if p1 < end && t[p1] == SLASH {
            comment_end(t, end, p1)
        } else {
            Ok(p1)
        };
        if c1 is Ok && c1->Ok_0 < end {
            let p2 = c1->Ok_0;
            lemma_window_byte(t, start, end, p2);
            lemma_shift_value(t, start, end, at(s, p2), name->Some_0);
        }
    }
}

proof fn lemma_shift_rule_step(t: Seq<u8>, start: int, end: int, s: ScanState)
    requires
        in_window(t, start, end, s.pos),
        s.pos < end,
    ensures
        rule_step(t, end, s) == shifted(rule_step(t.subrange(start, end), end - start, at(s, s.pos - start)), start),
{
    lemma_window_byte(t, start, end, s.pos);
    let c = t[s.pos];
    lemma_shift_take_ident(t, start, end, flags(s, true, true, s.pos + 1));
    lemma_shift_take_ident(t, start, end, flags(s, true, false, s.pos + 1));
    lemma_shift_skip(t, start, end, s.pos + 1);
    lemma_shift_pseudo(t, start, end, s);
    lemma_shift_attribute(t, start, end, s);
    lemma_shift_scan_comment(t, start, end, s);
    lemma_shift_scan_parens(t, start, end, s);
    lemma_shift_word(t, start, end, s);
    if is_space_byte(c) {
        lemma_shift_rule_space(t, start, end, s);
    }
}

proof fn lemma_shift_block_step(t: Seq<u8>, start: int, end: int, s: ScanState)
    requires
        in_window(t, start, end, s.pos),
        s.pos < end,
    ensures
        block_step(t, end, s) == shifted(block_step(t.subrange(start, end), end - start, at(s, s.pos - start)), start),
{
    lemma_window_byte(t, start, end, s.pos);
    lemma_shift_take_ident(t, start, end, flags(s, true, true, s.pos + 1));
    lemma_shift_take_ident(t, start, end, flags(s, true, false, s.pos + 1));
    lemma_shift_take_ident(t, start, end, s);
    lemma_ident_end(t, end, s.pos + 1);
    lemma_ident_end(t, end, s.pos);
    lemma_shift_skip(t, start, end, s.pos + 1);
    lemma_shift_skip(t, start, end, ident_end(t, end, s.pos + 1));
    lemma_shift_skip(t, start, end, ident_end(t, end, s.pos));
    lemma_shift_pseudo(t, start, end, s);
    lemma_shift_attribute(t, start, end, s);
    lemma_shift_scan_comment(t, start, end, s);
    lemma_shift_scan_parens(t, start, end, s);
    lemma_shift_property(t, start, end, s);
}

proof fn lemma_shift_dispatch(t: Seq<u8>, start: int, end: int, s: ScanState)
    requires
        in_window(t, start, end, s.pos),
        s.pos < end,
    ensures
        dispatch(t, end, s) == shifted(dispatch(t.subrange(start, end), end - start, at(s, s.pos - start)), start),
{
    lemma_shift_skip(t, start, end, s.pos);
    lemma_skip_spaces(t, end, s.pos);
    let p = skip_spaces_from(t, end, s.pos);
    if s.mode == State::Rule {
        lemma_shift_rule_step(t, start, end, s);
    } else if p < end {
        lemma_shift_block_step(t, start, end, at(s, p));
    }
}

proof fn lemma_shift_run(t: Seq<u8>, start: int, end: int, s: ScanState)
    requires
        in_window(t, start, end, s.pos),
    ensures
        run(t, end, s) == shifted(
            run(t.subrange(start, end), end - start, at(s, s.pos - start)),
            start,
        ),
    decreases end - s.pos,
{
    let u = t.subrange(start, end);
    let su = at(s, s.pos - start);
    if s.pos < end {
        lemma_shift_dispatch(t, start, end, s);
        let (s1, o) = dispatch(t, end, s);
        if o is Again && s.pos < s1.pos <= end {
            lemma_shift_run(t, start, end, s1);
            assert(at(s1, s1.pos - start) == dispatch(u, end - start, su).0);
        }
    } else {
        assert(at(su, su.pos + start) == s);
    }
}

/// A tokenizer bounded to the window `[start, end)` of `t` reads it as a
/// tokenizer reads the bytes of the window on their own: from corresponding
/// states, one call returns the same outcome and leaves corresponding states,
/// with the cursor and every range of text moved by `start`. Only error
/// positions differ, being counted from the start of `t`.
pub proof fn lemma_window_reads_as_slice(t: Seq<u8>, start: int, end: int, s: ScanState)
    requires
        in_window(t, start, end, s.pos),
    ensures
        next_spec(t, end, s) == shifted(
            next_spec(t.subrange(start, end), end - start, at(s, s.pos - start)),
            start,
        ),
{
    lemma_shift_skip(t, start, end, s.pos);
    lemma_skip_spaces(t, end, s.pos);
    let s0 = if s.at_start {
        ScanState { at_start: false, pos: skip_spaces_from(t, end, s.pos), ..s }
    } else {
        s
    };
    lemma_shift_run(t, start, end, s0);
}

/// Over any number of calls, a tokenizer bounded to the window `[start, end)`
/// of `t` and one over the bytes of the window alone stay in corresponding
/// states and return the same tokens, their ranges moved by `start`.
pub proof fn lemma_window_reads_as_slice_throughout(
    t: Seq<u8>,
    start: int,
    end: int,
    s: ScanState,
    n: nat,
)
    requires
        valid_state(t, end, s),
        0 <= start <= s.pos,
    ensures
        ({
            let u = t.subrange(start, end);
            let su = state_after(u, end - start, at(s, s.pos - start), n);
            &&& state_after(t, end, s, n) == at(su, su.pos + start)
            &&& next_spec(t, end, state_after(t, end, s, n)) == shifted(
                next_spec(u, end - start, su),
                start,
            )
        }),
    decreases n,
{
    let u = t.subrange(start, end);
    if n > 0 {
        lemma_window_reads_as_slice_throughout(t, start, end, s, (n - 1) as nat);
    }
    lemma_blocks_balance(t, end, s, n);
    let sn = state_after(t, end, s, n);
    lemma_position_monotone_throughout(t, end, s, n);
    lemma_window_reads_as_slice(t, start, end, sn);
    if n == 0 {
        assert(at(at(s, s.pos - start), s.pos) == s);
    }
}

} // verus!
