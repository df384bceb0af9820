//! Laws of the tokenizer, stated and proved over its transition function.
use vstd::prelude::*;
use crate::bytes::{
    ASTERISK, AT_SIGN, COLON, COMMA, DOT, HASH, LEFT_BRACE, LEFT_BRACKET, LEFT_PAREN, RIGHT_BRACE,
    RIGHT_BRACKET, SEMICOLON, SLASH,
};
use crate::scan::{
    at, block_step, comment_end, dispatch, flags, is_combinator_byte, lemma_comment_end,
    lemma_last_solid, lemma_paren_scan, lemma_separators_end, modes_agree, next_spec, paren_scan,
    rule_step, run, scan_attribute, scan_comment, scan_parens, scan_property, scan_pseudo,
    scan_rule_space, scan_value, scan_word, take_ident, valid_state, Lexeme, Scan, ScanState, Span,
    State,
};
use crate::stream::{
    find_byte, find_either, ident_end, is_space_byte, lemma_closing_paren, lemma_find_byte,
    lemma_find_either, lemma_ident_end, lemma_skip_spaces, skip_spaces_from,
};
use crate::tokenizer::Combinator;

verus! {

pub open spec fn span_within(sp: Span, a: int, b: int) -> bool {
    a <= sp.start <= sp.end <= b
}

/// Every range of text that the lexeme holds lies in `[a, b]`.
pub open spec fn spans_within(l: Lexeme, a: int, b: int) -> bool {
    match l {
        Lexeme::TypeSelector(sp) => span_within(sp, a, b),
        Lexeme::IdSelector(sp) => span_within(sp, a, b),
        Lexeme::ClassSelector(sp) => span_within(sp, a, b),
        Lexeme::AttributeSelector(sp) => span_within(sp, a, b),
        Lexeme::PseudoClass { selector, value } => span_within(selector, a, b) && (value is Some
            ==> span_within(value->Some_0, selector.end, b)),
        Lexeme::DoublePseudoClass { selector, value } => span_within(selector, a, b) && (value is Some
            ==> span_within(value->Some_0, selector.end, b)),
        Lexeme::Declaration(name, value) => span_within(name, a, b) && span_within(value, name.end, b),
        Lexeme::AtRule(sp) => span_within(sp, a, b),
        Lexeme::AtStr(sp) => span_within(sp, a, b),
        _ => true,
    }
}

/// How a lexeme changes the depth of nesting.
pub open spec fn depth_change(l: Lexeme) -> int {
    match l {
        Lexeme::BlockStart => 1,
        Lexeme::BlockEnd => -1,
        _ => 0,
    }
}

/// A simple selector: type, id, class, universal, attribute or pseudo-class.
pub open spec fn is_simple_selector(l: Lexeme) -> bool {
    match l {
        Lexeme::TypeSelector(_) => true,
        Lexeme::IdSelector(_) => true,
        Lexeme::ClassSelector(_) => true,
        Lexeme::UniversalSelector => true,
        Lexeme::AttributeSelector(_) => true,
        Lexeme::PseudoClass { .. } => true,
        Lexeme::DoublePseudoClass { .. } => true,
        _ => false,
    }
}

/// After a descendant combinator: in a rule head, after no selector, on a
/// byte that neither ends the head nor leads a combinator, a comment or a group.
spec fn after_space(t: Seq<u8>, end: int, s: ScanState) -> bool {
    &&& s.mode == State::Rule
    &&& !s.after_selector
    &&& !s.has_at_rule
    &&& s.pos < end
    &&& !is_space_byte(t[s.pos])
    &&& !(t[s.pos] == LEFT_BRACE || t[s.pos] == SLASH || is_combinator_byte(t[s.pos]) || t[s.pos]
        == ASTERISK || t[s.pos] == LEFT_PAREN)
}

/// What holds of one pass from `s` that ended in `s1` with `o`.
spec fn pass_facts(t: Seq<u8>, end: int, s: ScanState, s1: ScanState, o: Scan) -> bool {
    &&& s1.at_start == s.at_start
    &&& s.pos <= s1.pos <= end
    &&& modes_agree(s1)
    &&& o is Again ==> s.pos < s1.pos && s1.stack == s.stack
    &&& o is Fail ==> s1.stack == s.stack
    &&& o is Emit ==> {
        let l = o->Emit_0;
        &&& l != Lexeme::EndOfStream
        &&& s.pos < s1.pos
        &&& spans_within(l, s.pos, s1.pos)
        &&& s1.stack.len() == s.stack.len() + depth_change(l)
        &&& l == Lexeme::Combinator(Combinator::Space) ==> after_space(t, end, s1)
    }
}

proof fn lemma_take_ident(t: Seq<u8>, end: int, s: ScanState)
    requires
        0 <= s.pos <= end,
    ensures
        take_ident(t, end, s).0.pos == ident_end(t, end, s.pos),
        s.pos <= ident_end(t, end, s.pos) <= end,
        take_ident(t, end, s).1 is Some ==> span_within(
            take_ident(t, end, s).1->Some_0,
            s.pos,
            take_ident(t, end, s).0.pos,
        ) && s.pos < take_ident(t, end, s).0.pos,
{
    lemma_ident_end(t, end, s.pos);
}

proof fn lemma_scan_pseudo(t: Seq<u8>, end: int, s: ScanState)
    requires
        valid_state(t, end, s),
        s.pos < end,
    ensures
        pass_facts(t, end, s, scan_pseudo(t, end, s).0, scan_pseudo(t, end, s).1),
{
    let p = s.pos + 1;
    if p < end {
        let p2 = if t[p] == COLON { p + 1 } else { p };
        lemma_ident_end(t, end, p2);
        let q = ident_end(t, end, p2);
        if q < end {
            lemma_closing_paren(t, end, q + 1, 0);
        }
    }
}

proof fn lemma_scan_attribute(t: Seq<u8>, end: int, s: ScanState)
    requires
        valid_state(t, end, s),
        s.pos < end,
    ensures
        pass_facts(t, end, s, scan_attribute(t, end, s).0, scan_attribute(t, end, s).1),
{
    lemma_find_byte(t, end, s.pos + 1, RIGHT_BRACKET);
    let f = find_byte(t, end, s.pos + 1, RIGHT_BRACKET);
    if f < end {
        lemma_skip_spaces(t, end, f + 1);
    }
}

proof fn lemma_scan_parens(t: Seq<u8>, end: int, s: ScanState)
    requires
        valid_state(t, end, s),
        s.pos < end,
    ensures
        pass_facts(t, end, s, scan_parens(t, end, s).0, scan_parens(t, end, s).1),
{
    lemma_paren_scan(t, end, s.pos + 1, 1, None);
    lemma_skip_spaces(t, end, paren_scan(t, end, s.pos + 1, 1, None).0);
}

proof fn lemma_scan_comment(t: Seq<u8>, end: int, s: ScanState)
    requires
        valid_state(t, end, s),
        s.pos < end,
    ensures
        pass_facts(t, end, s, scan_comment(t, end, s).0, scan_comment(t, end, s).1),
{
    lemma_comment_end(t, end, s.pos);
}

proof fn lemma_scan_word(t: Seq<u8>, end: int, s: ScanState)
    requires
        valid_state(t, end, s),
    ensures
        pass_facts(t, end, s, scan_word(t, end, s).0, scan_word(t, end, s).1),
{
    lemma_take_ident(t, end, s);
}

proof fn lemma_scan_value(t: Seq<u8>, end: int, s: ScanState, name: Span)
    requires
        valid_state(t, end, s),
        s.pos < end,
        name.end <= s.pos,
    ensures
        scan_value(t, end, s, name).0 == at(s, scan_value(t, end, s, name).0.pos),
        s.pos < scan_value(t, end, s, name).0.pos <= end,
        !(scan_value(t, end, s, name).1 is Again),
        scan_value(t, end, s, name).1 is Emit ==> scan_value(t, end, s, name).1->Emit_0
            is Declaration && scan_value(t, end, s, name).1->Emit_0->Declaration_0 == name
            && span_within(scan_value(t, end, s, name).1->Emit_0->Declaration_1, s.pos, scan_value(t, end, s, name).0.pos),
{
    let p3 = skip_spaces_from(t, end, s.pos + 1);
    lemma_skip_spaces(t, end, s.pos + 1);
    if p3 < end {
        lemma_comment_end(t, end, p3);
    }
    let c3 = if p3 < end && t[p3] == SLASH {
        comment_end(t, end, p3)
    } else {
        Ok(p3)
    };
    if c3 is Ok {
        let p4 = c3->Ok_0;
        lemma_find_either(t, end, p4, SEMICOLON, RIGHT_BRACE);
        let f = find_either(t, end, p4, SEMICOLON, RIGHT_BRACE);
        if f < end {
            lemma_separators_end(t, end, f);
            lemma_last_solid(t, p4, f);
        }
    }
}

proof fn lemma_scan_property(t: Seq<u8>, end: int, s: ScanState)
    requires
        valid_state(t, end, s),
        s.pos < end,
    ensures
        pass_facts(t, end, s, scan_property(t, end, s).0, scan_property(t, end, s).1),
{
    reveal(scan_property);
    lemma_take_ident(t, end, s);
    let (s1, name) = take_ident(t, end, s);
    if name is Some {
        let p1 = skip_spaces_from(t, end, s1.pos);
        lemma_skip_spaces(t, end, s1.pos);
        if p1 < end {
            lemma_comment_end(t, end, p1);
        }
        let c1 = if p1 < end && t[p1] == SLASH {
            comment_end(t, end, p1)
        } else {
            Ok(p1)
        };
        if c1 is Ok && c1->Ok_0 < end {
            let p2 = c1->Ok_0;
            let s2 = at(s, p2);
            lemma_scan_value(t, end, s2, name->Some_0);
        }
    }
}

proof fn lemma_scan_rule_space(t: Seq<u8>, end: int, s: ScanState)
    requires
        valid_state(t, end, s),
        s.pos < end,
        is_space_byte(t[s.pos]),
        s.mode == State::Rule,
    ensures
        pass_facts(t, end, s, scan_rule_space(t, end, s).0, scan_rule_space(t, end, s).1),
{
    lemma_skip_spaces(t, end, s.pos);
    let p = skip_spaces_from(t, end, s.pos);
    lemma_scan_word(t, end, flags(s, false, true, p));
}

proof fn lemma_rule_step(t: Seq<u8>, end: int, s: ScanState)
    requires
        valid_state(t, end, s),
        s.pos < end,
        s.mode == State::Rule,
    ensures
        pass_facts(t, end, s, rule_step(t, end, s).0, rule_step(t, end, s).1),
{
    let c = t[s.pos];
    lemma_take_ident(t, end, flags(s, true, true, s.pos + 1));
    lemma_skip_spaces(t, end, s.pos + 1);
    if c == COLON {
        lemma_scan_pseudo(t, end, s);
    } else if c == LEFT_BRACKET {
        lemma_scan_attribute(t, end, s);
    } else if c == SLASH {
        lemma_scan_comment(t, end, s);
    } else if c == LEFT_PAREN && s.has_at_rule {
        lemma_scan_parens(t, end, s);
    } else if is_space_byte(c) {
        lemma_scan_rule_space(t, end, s);
    } else {
        lemma_scan_word(t, end, s);
    }
}

proof fn lemma_block_step(t: Seq<u8>, end: int, s: ScanState)
    requires
        valid_state(t, end, s),
        s.pos < end,
        s.mode != State::Rule,
    ensures
        pass_facts(t, end, s, block_step(t, end, s).0, block_step(t, end, s).1),
{
    let c = t[s.pos];
    lemma_take_ident(t, end, flags(s, true, true, s.pos + 1));
    lemma_take_ident(t, end, s);
    lemma_skip_spaces(t, end, s.pos + 1);
    lemma_skip_spaces(t, end, ident_end(t, end, s.pos + 1));
    lemma_skip_spaces(t, end, ident_end(t, end, s.pos));
    if c == COLON {
        lemma_scan_pseudo(t, end, s);
    } else if c == LEFT_BRACKET {
        lemma_scan_attribute(t, end, s);
    } else if c == SLASH {
        lemma_scan_comment(t, end, s);
    } else if c == LEFT_PAREN && s.has_at_rule {
        lemma_scan_parens(t, end, s);
    } else if c != RIGHT_BRACE && c != LEFT_BRACE && c != AT_SIGN && c != HASH && c != DOT && c
        != ASTERISK && !is_combinator_byte(c) && c != COMMA && !s.has_at_rule {
        lemma_scan_property(t, end, s);
    }
}

proof fn lemma_dispatch(t: Seq<u8>, end: int, s: ScanState)
    requires
        valid_state(t, end, s),
        s.pos < end,
    ensures
        pass_facts(t, end, s, dispatch(t, end, s).0, dispatch(t, end, s).1),
{
    if s.mode == State::Rule {
        lemma_rule_step(t, end, s);
    } else {
        lemma_skip_spaces(t, end, s.pos);
        let p = skip_spaces_from(t, end, s.pos);
        if p < end {
            lemma_block_step(t, end, at(s, p));
        }
    }
}

/// A pass leaves a state the tokenizer can be in, and passes over trivia move forward.
pub(crate) proof fn lemma_dispatch_valid(t: Seq<u8>, end: int, s: ScanState)
    requires
        valid_state(t, end, s),
        s.pos < end,
    ensures
        valid_state(t, end, dispatch(t, end, s).0),
        dispatch(t, end, s).1 is Again ==> s.pos < dispatch(t, end, s).0.pos,
        dispatch(t, end, s).1 != Scan::Emit(Lexeme::EndOfStream),
{
    lemma_dispatch(t, end, s);
}

/// What holds of the passes from `s` up to a token or a failure.
proof fn lemma_run(t: Seq<u8>, end: int, s: ScanState)
    requires
        valid_state(t, end, s),
    ensures
        ({
            let (s2, o) = run(t, end, s);
            &&& !(o is Again)
            &&& s2.at_start == s.at_start
            &&& s.pos <= s2.pos <= end
            &&& modes_agree(s2)
            &&& o is Fail ==> s2.stack == s.stack
            &&& o == Scan::Emit(Lexeme::EndOfStream) ==> s2.pos == end && s2.stack == s.stack
            &&& o is Emit && o->Emit_0 != Lexeme::EndOfStream ==> pass_facts(t, end, s, s2, o)
        }),
    decreases end - s.pos,
{
    if s.pos < end {
        lemma_dispatch(t, end, s);
        let (s1, o) = dispatch(t, end, s);
        if o is Again {
            lemma_run(t, end, s1);
        }
    }
}

/// What holds of one call, from any state a tokenizer can be in.
proof fn lemma_next(t: Seq<u8>, end: int, s: ScanState)
    requires
        valid_state(t, end, s),
    ensures
        ({
            let (s2, o) = next_spec(t, end, s);
            &&& !(o is Again)
            &&& !s2.at_start
            &&& s.pos <= s2.pos <= end
            &&& modes_agree(s2)
            &&& o is Fail ==> s2.stack == s.stack
            &&& o == Scan::Emit(Lexeme::EndOfStream) ==> s2.pos == end && s2.stack == s.stack
            &&& o is Emit && o->Emit_0 != Lexeme::EndOfStream ==> s.pos < s2.pos && spans_within(
                o->Emit_0,
                s.pos,
                s2.pos,
            ) && s2.stack.len() == s.stack.len() + depth_change(o->Emit_0) && (o->Emit_0
                == Lexeme::Combinator(Combinator::Space) ==> after_space(t, end, s2))
        }),
{
    let s0 = if s.at_start {
        ScanState { at_start: false, pos: skip_spaces_from(t, end, s.pos), ..s }
    } else {
        s
    };
    lemma_skip_spaces(t, end, s.pos);
    lemma_run(t, end, s0);
}

/// A call leaves the tokenizer in a state it can be in: the cursor within the
/// text, and the mode in step with the depth of nesting.
pub proof fn lemma_state_stays_valid(t: Seq<u8>, end: int, s: ScanState)
    requires
        valid_state(t, end, s),
    ensures
        valid_state(t, end, next_spec(t, end, s).0),
        !(next_spec(t, end, s).1 is Again),
{
    lemma_next(t, end, s);
}

/// Once a call has returned `EndOfStream`, every later call returns it again
/// and leaves the state, the cursor included, as it is.
pub proof fn lemma_end_of_stream_absorbs(t: Seq<u8>, end: int, s: ScanState)
    requires
        valid_state(t, end, s),
        next_spec(t, end, s).1 == Scan::Emit(Lexeme::EndOfStream),
    ensures
        next_spec(t, end, next_spec(t, end, s).0) == next_spec(t, end, s),
{
    lemma_next(t, end, s);
}

/// A call that returns `BlockStart` opens one more block, one that returns
/// `BlockEnd` closes one, and any other call leaves the depth of nesting as it is.
pub proof fn lemma_nesting_depth(t: Seq<u8>, end: int, s: ScanState)
    requires
        valid_state(t, end, s),
    ensures
        next_spec(t, end, s).1 is Emit ==> next_spec(t, end, s).0.stack.len() == s.stack.len()
            + depth_change(next_spec(t, end, s).1->Emit_0),
        next_spec(t, end, s).1 is Fail ==> next_spec(t, end, s).0.stack == s.stack,
{
    lemma_next(t, end, s);
}

/// The cursor never moves back, and every token but `EndOfStream` moves it forward.
pub proof fn lemma_position_monotone(t: Seq<u8>, end: int, s: ScanState)
    requires
        valid_state(t, end, s),
    ensures
        s.pos <= next_spec(t, end, s).0.pos,
        next_spec(t, end, s).1 is Emit && next_spec(t, end, s).1->Emit_0 != Lexeme::EndOfStream
            ==> s.pos < next_spec(t, end, s).0.pos,
{
    lemma_next(t, end, s);
}

/// A call reads the text from the cursor to where it leaves the cursor, and
/// the texts of the token it returns lie in that range, in order.
pub proof fn lemma_token_within_consumed(t: Seq<u8>, end: int, s: ScanState)
    requires
        valid_state(t, end, s),
        next_spec(t, end, s).1 is Emit,
    ensures
        spans_within(next_spec(t, end, s).1->Emit_0, s.pos, next_spec(t, end, s).0.pos),
{
    lemma_next(t, end, s);
}

/// The token after a descendant combinator is a simple selector, or the call
/// fails, unless the next byte is a `,` or an `@`.
pub proof fn lemma_descendant_then_selector(t: Seq<u8>, end: int, s: ScanState)
    requires
        valid_state(t, end, s),
        next_spec(t, end, s).1 == Scan::Emit(Lexeme::Combinator(Combinator::Space)),
        ({
            let p = next_spec(t, end, s).0.pos;
            p < end ==> t[p] != COMMA && t[p] != AT_SIGN
        }),
    ensures
        next_spec(t, end, next_spec(t, end, s).0).1 is Emit ==> is_simple_selector(
            next_spec(t, end, next_spec(t, end, s).0).1->Emit_0,
        ),
{
    lemma_next(t, end, s);
    let s2 = next_spec(t, end, s).0;
    lemma_take_ident(t, end, s2);
    lemma_take_ident(t, end, flags(s2, true, false, s2.pos + 1));
    lemma_scan_pseudo(t, end, s2);
}

/// The state after `n` calls from `s`.
pub open spec fn state_after(t: Seq<u8>, end: int, s: ScanState, n: nat) -> ScanState
    decreases n,
{
    if n == 0 {
        s
    } else {
        next_spec(t, end, state_after(t, end, s, (n - 1) as nat)).0
    }
}

/// The number of `BlockStart` tokens minus the number of `BlockEnd` tokens
/// that the first `n` calls from `s` return.
pub open spec fn net_blocks(t: Seq<u8>, end: int, s: ScanState, n: nat) -> int
    decreases n,
{
    if n == 0 {
        0
    } else {
        let o = next_spec(t, end, state_after(t, end, s, (n - 1) as nat)).1;
        net_blocks(t, end, s, (n - 1) as nat) + match o {
            Scan::Emit(l) => depth_change(l),
            _ => 0,
        }
    }
}

/// Over any number of calls, the depth of nesting changes by the number of
/// `BlockStart` tokens minus the number of `BlockEnd` tokens returned; so from
/// the start of a text to a point where the tokenizer is back in a rule head,
/// the two numbers are equal.
pub proof fn lemma_blocks_balance(t: Seq<u8>, end: int, s: ScanState, n: nat)
    requires
        valid_state(t, end, s),
    ensures
        valid_state(t, end, state_after(t, end, s, n)),
        state_after(t, end, s, n).stack.len() == s.stack.len() + net_blocks(t, end, s, n),
        s.stack.len() == 0 && state_after(t, end, s, n).mode == State::Rule ==> net_blocks(
            t,
            end,
            s,
            n,
        ) == 0,
    decreases n,
{
    if n > 0 {
        lemma_blocks_balance(t, end, s, (n - 1) as nat);
        lemma_next(t, end, state_after(t, end, s, (n - 1) as nat));
    }
}

/// Over any number of calls the cursor never moves back.
pub proof fn lemma_position_monotone_throughout(t: Seq<u8>, end: int, s: ScanState, n: nat)
    requires
        valid_state(t, end, s),
    ensures
        s.pos <= state_after(t, end, s, n).pos,
    decreases n,
{
    if n > 0 {
        lemma_position_monotone_throughout(t, end, s, (n - 1) as nat);
        lemma_blocks_balance(t, end, s, (n - 1) as nat);
        lemma_next(t, end, state_after(t, end, s, (n - 1) as nat));
    }
}

} // verus!
