//! The tokenizer as a mathematical transition function over the source bytes.
use vstd::prelude::*;
use crate::bytes::{
    APOSTROPHE, ASTERISK, AT_SIGN, BACKSLASH, COLON, COMMA, DOT, GREATER_THAN, HASH, LEFT_BRACE,
    LEFT_BRACKET, LEFT_PAREN, PLUS, QUOTE, RIGHT_BRACE, RIGHT_BRACKET, RIGHT_PAREN, SEMICOLON,
    SLASH, TILDE,
};
use crate::stream::{closing_paren, find_byte, find_either, ident_end, is_space_byte, skip_spaces_from};
use crate::tokenizer::Combinator;

verus! {

/// Where the tokenizer stands: a rule head, a declaration block, or a block
/// opened from inside a declaration block.
#[derive(PartialEq, Eq, Structural, Debug, Clone, Copy)]
pub enum State {
    Rule,
    Declaration,
    DeclarationRule,
}

/// The byte range `[start, end)` of the source.
pub struct Span {
    pub start: int,
    pub end: int,
}

/// A token, with its text given as byte ranges of the source.
pub enum Lexeme {
    UniversalSelector,
    TypeSelector(Span),
    IdSelector(Span),
    ClassSelector(Span),
    AttributeSelector(Span),
    PseudoClass { selector: Span, value: Option<Span> },
    DoublePseudoClass { selector: Span, value: Option<Span> },
    Combinator(Combinator),
    Comma,
    BlockStart,
    BlockEnd,
    Declaration(Span, Span),
    AtRule(Span),
    AtStr(Span),
    EndOfStream,
}

/// What one pass over the input did: emit a token, fail, or skip trivia and go on.
pub enum Scan {
    Emit(Lexeme),
    Fail,
    Again,
}

/// The whole state of a tokenizer, apart from the source it reads.
pub struct ScanState {
    pub mode: State,
    /// The last token completed a compound selector, so whitespace that
    /// follows is a descendant combinator.
    pub after_selector: bool,
    /// The head of an `@`-rule is being read: identifiers and groups in
    /// parentheses are pieces of it.
    pub has_at_rule: bool,
    /// No call has been made yet: leading whitespace is still to be skipped.
    pub at_start: bool,
    /// One entry per open block: whether an `@`-rule opened it.
    pub stack: Seq<bool>,
    /// The cursor, as an offset in the whole source.
    pub pos: int,
}

/// The mode and the depth of nesting agree: no open block in a rule head,
/// at least one inside a block, two when a block was opened inside a block.
pub open spec fn modes_agree(s: ScanState) -> bool {
    &&& s.mode == State::Rule ==> s.stack.len() == 0
    &&& s.mode == State::Declaration ==> s.stack.len() >= 1
    &&& s.mode == State::DeclarationRule ==> s.stack.len() >= 2
}

/// A state that a tokenizer over `t`, bounded by `end`, can be in.
pub open spec fn valid_state(t: Seq<u8>, end: int, s: ScanState) -> bool {
    &&& 0 <= s.pos <= end <= t.len()
    &&& modes_agree(s)
}

/// The state in which a tokenizer starts, at offset `start`.
pub open spec fn initial_state(start: int) -> ScanState {
    ScanState {
        mode: State::Rule,
        after_selector: false,
        has_at_rule: false,
        at_start: true,
        stack: Seq::empty(),
        pos: start,
    }
}

/// The state `s` with the cursor at `p`.
pub open spec fn at(s: ScanState, p: int) -> ScanState {
    ScanState { pos: p, ..s }
}

/// The state `s` with the two flags set and the cursor at `p`.
pub open spec fn flags(s: ScanState, a: bool, h: bool, p: int) -> ScanState {
    ScanState { after_selector: a, has_at_rule: h, pos: p, ..s }
}

/// The identifier at the cursor, if it is not empty; the cursor moves past it.
pub open spec fn take_ident(t: Seq<u8>, end: int, s: ScanState) -> (ScanState, Option<Span>) {
    let q = ident_end(t, end, s.pos);
    (at(s, q), if q == s.pos { None } else { Some(Span { start: s.pos, end: q }) })
}

/// Scans the body of a comment from `i`, where the search for the next `*`
/// started at `head`: `Ok` of the offset after `*/`, or `Err` of where it failed.
pub open spec fn comment_body(t: Seq<u8>, end: int, i: int, head: int) -> Result<int, int>
    decreases end - i,
{
    if i >= end {
        Err(head)
    } else if t[i] == ASTERISK {
        if i + 1 >= end {
            Err(i + 1)
        } else if t[i + 1] == SLASH {
            Ok(i + 2)
        } else {
            comment_body(t, end, i + 1, i + 1)
        }
    } else {
        comment_body(t, end, i + 1, head)
    }
}

/// A comment that starts at the `/` at `p`: `Ok` of the offset after its
/// closing `*/`, or `Err` of the offset at which it is rejected: after the `/`
/// when no `*` follows it, else where the text ends before `*/`.
pub open spec fn comment_end(t: Seq<u8>, end: int, p: int) -> Result<int, int> {
    let q = p + 1;
    if q >= end || t[q] != ASTERISK {
        Err(q)
    } else {
        comment_body(t, end, q + 1, q + 1)
    }
}

/// Scans a parenthesized group from `i` with `depth` groups open and, inside
/// a quoted string, its quote: the offset where the scan stops and the depth
/// left open there.
pub open spec fn paren_scan(t: Seq<u8>, end: int, i: int, depth: nat, quote: Option<u8>) -> (int, nat)
    decreases end - i,
{
    if i >= end {
        (i, depth)
    } else {
        match quote {
            Some(q) => {
                if t[i] == q {
                    paren_scan(t, end, i + 1, depth, None)
                } else if t[i] == BACKSLASH && i + 1 < end {
                    paren_scan(t, end, i + 2, depth, Some(q))
                } else {
                    paren_scan(t, end, i + 1, depth, Some(q))
                }
            },
            None => {
                if depth == 0 {
                    (i, 0)
                } else if t[i] == LEFT_PAREN {
                    paren_scan(t, end, i + 1, depth + 1, None)
                } else if t[i] == RIGHT_PAREN {
                    paren_scan(t, end, i + 1, (depth - 1) as nat, None)
                } else if t[i] == QUOTE || t[i] == APOSTROPHE {
                    paren_scan(t, end, i + 1, depth, Some(t[i]))
                } else {
                    paren_scan(t, end, i + 1, depth, None)
                }
            },
        }
    }
}

/// The offset just after the last non-whitespace byte of `[a, b)`, or `a` when there is none.
pub open spec fn last_solid(t: Seq<u8>, a: int, b: int) -> int
    decreases b - a,
{
    if b <= a {
        a
    } else if !is_space_byte(t[b - 1]) {
        b
    } else {
        last_solid(t, a, b - 1)
    }
}

/// The end of a declaration value `[a, b)` once trailing whitespace is cut;
/// a value of whitespace alone is kept whole.
pub open spec fn trimmed_end(t: Seq<u8>, a: int, b: int) -> int {
    if last_solid(t, a, b) == a {
        b
    } else {
        last_solid(t, a, b)
    }
}

/// Moves past the `;` and whitespace that follow a declaration: `Ok` of the
/// offset of the next other byte, `Err(end)` when there is none.
pub open spec fn separators_end(t: Seq<u8>, end: int, i: int) -> Result<int, int>
    decreases end - i,
{
    if i >= end {
        Err(i)
    } else if t[i] == SEMICOLON || is_space_byte(t[i]) {
        separators_end(t, end, i + 1)
    } else {
        Ok(i)
    }
}

/// A pseudo-class lexeme, with one colon or two.
pub open spec fn pseudo(double: bool, selector: Span, value: Option<Span>) -> Lexeme {
    if double {
        Lexeme::DoublePseudoClass { selector, value }
    } else {
        Lexeme::PseudoClass { selector, value }
    }
}

/// A pseudo-class at the `:` under the cursor: `:name`, `::name`, and either
/// with a raw argument in parentheses, which runs up to the `)` that closes
/// the group.
pub open spec fn scan_pseudo(t: Seq<u8>, end: int, s: ScanState) -> (ScanState, Scan) {
    let s1 = flags(s, true, false, s.pos + 1);
    if s1.pos >= end {
        (s1, Scan::Fail)
    } else {
        let double = t[s1.pos] == COLON;
        let (s2, name) = take_ident(t, end, at(s1, if double { s1.pos + 1 } else { s1.pos }));
        match name {
            None => (s2, Scan::Fail),
            Some(sel) => {
                let q = s2.pos;
                if q < end && t[q] == LEFT_PAREN {
                    let f = closing_paren(t, end, q + 1, 0);
                    if f >= end {
                        (at(s2, q + 1), Scan::Fail)
                    } else {
                        (
                            at(s2, f + 1),
                            Scan::Emit(pseudo(double, sel, Some(Span { start: q + 1, end: f }))),
                        )
                    }
                } else {
                    (s2, Scan::Emit(pseudo(double, sel, None)))
                }
            },
        }
    }
}

/// An attribute selector at the `[` under the cursor: its raw text up to the first `]`.
pub open spec fn scan_attribute(t: Seq<u8>, end: int, s: ScanState) -> (ScanState, Scan) {
    let p = s.pos + 1;
    let s1 = flags(s, true, false, p);
    let f = find_byte(t, end, p, RIGHT_BRACKET);
    if f >= end {
        (s1, Scan::Fail)
    } else {
        (
            at(s1, skip_spaces_from(t, end, f + 1)),
            Scan::Emit(Lexeme::AttributeSelector(Span { start: p, end: f })),
        )
    }
}

/// A parenthesized group of an `@`-rule head at the `(` under the cursor,
/// parentheses included.
pub open spec fn scan_parens(t: Seq<u8>, end: int, s: ScanState) -> (ScanState, Scan) {
    let (q, depth) = paren_scan(t, end, s.pos + 1, 1, None);
    if depth != 0 {
        (at(s, q), Scan::Fail)
    } else {
        (
            ScanState { after_selector: true, pos: skip_spaces_from(t, end, q), ..s },
            Scan::Emit(Lexeme::AtStr(Span { start: s.pos, end: q })),
        )
    }
}

/// A comment at the `/` under the cursor, which is trivia, or a failure.
pub open spec fn scan_comment(t: Seq<u8>, end: int, s: ScanState) -> (ScanState, Scan) {
    match comment_end(t, end, s.pos) {
        Ok(p) => (at(s, p), Scan::Again),
        Err(p) => (at(s, p), Scan::Fail),
    }
}

/// A combinator, for `>`, `+` and `~`.
pub open spec fn combinator_of(c: u8) -> Combinator {
    if c == GREATER_THAN {
        Combinator::GreaterThan
    } else if c == PLUS {
        Combinator::Plus
    } else {
        Combinator::Tilde
    }
}

/// `>`, `+` or `~`.
pub open spec fn is_combinator_byte(c: u8) -> bool {
    c == GREATER_THAN || c == PLUS || c == TILDE
}

/// An identifier in a rule head: a piece of an `@`-rule head, or a type selector.
pub open spec fn scan_word(t: Seq<u8>, end: int, s: ScanState) -> (ScanState, Scan) {
    let (s1, name) = take_ident(t, end, s);
    match name {
        None => (s1, Scan::Fail),
        Some(sp) => if s.has_at_rule {
            (ScanState { after_selector: true, ..s1 }, Scan::Emit(Lexeme::AtStr(sp)))
        } else {
            (flags(s1, true, false, s1.pos), Scan::Emit(Lexeme::TypeSelector(sp)))
        },
    }
}

/// Whitespace in a rule head at the cursor: a descendant combinator after a
/// selector, unless what follows opens a block, a comment, another combinator,
/// a universal selector or a group.
pub open spec fn scan_rule_space(t: Seq<u8>, end: int, s: ScanState) -> (ScanState, Scan) {
    let p = skip_spaces_from(t, end, s.pos);
    if !s.after_selector {
        (at(s, p), Scan::Again)
    } else if p >= end {
        (at(s, p), Scan::Fail)
    } else if t[p] == LEFT_BRACE || t[p] == SLASH || is_combinator_byte(t[p]) || t[p] == ASTERISK || t[p]
        == LEFT_PAREN {
        (at(s, p), Scan::Again)
    } else if !s.has_at_rule {
        (flags(s, false, false, p), Scan::Emit(Lexeme::Combinator(Combinator::Space)))
    } else {
        scan_word(t, end, flags(s, false, true, p))
    }
}

/// One pass in a rule head, the cursor on a byte.
pub open spec fn rule_step(t: Seq<u8>, end: int, s: ScanState) -> (ScanState, Scan) {
    let c = t[s.pos];
    if c == AT_SIGN {
        let (s1, name) = take_ident(t, end, flags(s, true, true, s.pos + 1));
        match name {
            None => (s1, Scan::Fail),
            Some(sp) => (s1, Scan::Emit(Lexeme::AtRule(sp))),
        }
    } else if c == HASH || c == DOT {
        let (s1, name) = take_ident(t, end, flags(s, true, false, s.pos + 1));
        match name {
            None => (s1, Scan::Fail),
            Some(sp) => (
                s1,
                Scan::Emit(
                    if c == HASH {
                        Lexeme::IdSelector(sp)
                    } else {
                        Lexeme::ClassSelector(sp)
                    },
                ),
            ),
        }
    } else if c == ASTERISK {
        (
            flags(s, true, false, skip_spaces_from(t, end, s.pos + 1)),
            Scan::Emit(Lexeme::UniversalSelector),
        )
    } else if c == COLON {
        scan_pseudo(t, end, s)
    } else if c == LEFT_BRACKET {
        scan_attribute(t, end, s)
    } else if c == COMMA {
        (flags(s, false, false, skip_spaces_from(t, end, s.pos + 1)), Scan::Emit(Lexeme::Comma))
    } else if c == LEFT_BRACE {
        (
            ScanState {
                mode: State::Declaration,
                after_selector: false,
                has_at_rule: false,
                stack: s.stack.push(s.has_at_rule),
                pos: s.pos + 1,
                ..s
            },
            Scan::Emit(Lexeme::BlockStart),
        )
    } else if is_combinator_byte(c) {
        if s.after_selector {
            (
                flags(s, false, false, skip_spaces_from(t, end, s.pos + 1)),
                Scan::Emit(Lexeme::Combinator(combinator_of(c))),
            )
        } else {
            (s, Scan::Fail)
        }
    } else if c == SLASH {
        scan_comment(t, end, s)
    } else if c == LEFT_PAREN && s.has_at_rule {
        scan_parens(t, end, s)
    } else if is_space_byte(c) {
        scan_rule_space(t, end, s)
    } else {
        scan_word(t, end, s)
    }
}

/// The value of a declaration named `name`, the cursor on the `:` after the name.
pub open spec fn scan_value(t: Seq<u8>, end: int, s: ScanState, name: Span) -> (ScanState, Scan) {
    let p3 = skip_spaces_from(t, end, s.pos + 1);
    let c3 = if p3 < end && t[p3] == SLASH {
        comment_end(t, end, p3)
    } else {
        Ok(p3)
    };
    match c3 {
        Err(e) => (at(s, e), Scan::Fail),
        Ok(p4) => {
            let f = find_either(t, end, p4, SEMICOLON, RIGHT_BRACE);
            if f >= end || f == p4 {
                (at(s, p4), Scan::Fail)
            } else {
                match separators_end(t, end, f) {
                    Err(e) => (at(s, e), Scan::Fail),
                    Ok(p5) => (
                        at(s, p5),
                        Scan::Emit(
                            Lexeme::Declaration(
                                name,
                                Span { start: p4, end: trimmed_end(t, p4, f) },
                            ),
                        ),
                    ),
                }
            }
        },
    }
}

/// A declaration `name: value` or a nested type selector `name`, at an identifier
/// inside a block.
#[verifier::opaque]
pub open spec fn scan_property(t: Seq<u8>, end: int, s: ScanState) -> (ScanState, Scan) {
    let (s1, name) = take_ident(t, end, s);
    match name {
        None => (s1, Scan::Fail),
        Some(sp) => {
            let p1 = skip_spaces_from(t, end, s1.pos);
            let c1 = if p1 < end && t[p1] == SLASH {
                comment_end(t, end, p1)
            } else {
                Ok(p1)
            };
            match c1 {
                Err(e) => (at(s, e), Scan::Fail),
                Ok(p2) => {
                    if p2 >= end {
                        (at(s, p2), Scan::Fail)
                    } else if t[p2] != COLON {
                        (
                            ScanState { after_selector: true, pos: p2, ..s },
                            Scan::Emit(Lexeme::TypeSelector(sp)),
                        )
                    } else {
                        scan_value(t, end, at(s, p2), sp)
                    }
                },
            }
        },
    }
}

/// One pass inside a block, the cursor on a byte that is not whitespace.
pub open spec fn block_step(t: Seq<u8>, end: int, s: ScanState) -> (ScanState, Scan) {
    let c = t[s.pos];
    if c == RIGHT_BRACE {
        let stack = s.stack.drop_last();
        let mode = if s.mode == State::Declaration && stack.len() == 0 {
            State::Rule
        } else {
            State::Declaration
        };
        (
            ScanState {
                mode,
                has_at_rule: false,
                stack,
                pos: skip_spaces_from(t, end, s.pos + 1),
                ..s
            },
            Scan::Emit(Lexeme::BlockEnd),
        )
    } else if c == LEFT_BRACE {
        (
            ScanState {
                mode: State::DeclarationRule,
                after_selector: false,
                has_at_rule: false,
                stack: s.stack.push(s.has_at_rule),
                pos: skip_spaces_from(t, end, s.pos + 1),
                ..s
            },
            Scan::Emit(Lexeme::BlockStart),
        )
    } else if c == AT_SIGN {
        let (s1, name) = take_ident(t, end, flags(s, true, true, s.pos + 1));
        match name {
            None => (s1, Scan::Fail),
            Some(sp) => (at(s1, skip_spaces_from(t, end, s1.pos)), Scan::Emit(Lexeme::AtRule(sp))),
        }
    } else if c == COLON {
        scan_pseudo(t, end, s)
    } else if c == HASH || c == DOT {
        let (s1, name) = take_ident(t, end, flags(s, true, false, s.pos + 1));
        match name {
            None => (s1, Scan::Fail),
            Some(sp) => (
                s1,
                Scan::Emit(
                    if c == HASH {
                        Lexeme::IdSelector(sp)
                    } else {
                        Lexeme::ClassSelector(sp)
                    },
                ),
            ),
        }
    } else if c == ASTERISK {
        (
            flags(s, true, false, skip_spaces_from(t, end, s.pos + 1)),
            Scan::Emit(Lexeme::UniversalSelector),
        )
    } else if c == LEFT_BRACKET {
        scan_attribute(t, end, s)
    } else if is_combinator_byte(c) {
        (
            flags(s, false, false, skip_spaces_from(t, end, s.pos + 1)),
            Scan::Emit(Lexeme::Combinator(combinator_of(c))),
        )
    } else if c == COMMA {
        (flags(s, false, false, skip_spaces_from(t, end, s.pos + 1)), Scan::Emit(Lexeme::Comma))
    } else if c == LEFT_PAREN && s.has_at_rule {
        scan_parens(t, end, s)
    } else if c == SLASH {
        scan_comment(t, end, s)
    } else if s.has_at_rule {
        let (s1, name) = take_ident(t, end, s);
        match name {
            None => (s1, Scan::Fail),
            Some(sp) => (
                ScanState { after_selector: true, pos: skip_spaces_from(t, end, s1.pos), ..s1 },
                Scan::Emit(Lexeme::AtStr(sp)),
            ),
        }
    } else {
        scan_property(t, end, s)
    }
}

/// One pass inside a block: whitespace first; when it runs to the end there is
/// nothing left to read.
pub open spec fn declaration_step(t: Seq<u8>, end: int, s: ScanState) -> (ScanState, Scan) {
    let p = skip_spaces_from(t, end, s.pos);
    if p >= end {
        (at(s, p), Scan::Again)
    } else {
        block_step(t, end, at(s, p))
    }
}

/// One pass, the cursor before the end: by the mode.
pub open spec fn dispatch(t: Seq<u8>, end: int, s: ScanState) -> (ScanState, Scan) {
    if s.mode == State::Rule {
        rule_step(t, end, s)
    } else {
        declaration_step(t, end, s)
    }
}

/// Passes until a token is emitted or the scan fails; at the end, `EndOfStream`.
pub open spec fn run(t: Seq<u8>, end: int, s: ScanState) -> (ScanState, Scan)
    decreases end - s.pos,
{
    if s.pos >= end {
        (s, Scan::Emit(Lexeme::EndOfStream))
    } else {
        let (s1, o) = dispatch(t, end, s);
        match o {
            Scan::Again => if s.pos < s1.pos <= end {
                run(t, end, s1)
            } else {
                (s1, Scan::Fail)
            },
            _ => (s1, o),
        }
    }
}

/// What one call for the next token does: on the first call the leading
/// whitespace is skipped, then passes run until a token or a failure.
pub open spec fn next_spec(t: Seq<u8>, end: int, s: ScanState) -> (ScanState, Scan) {
    let s0 = if s.at_start {
        ScanState { at_start: false, pos: skip_spaces_from(t, end, s.pos), ..s }
    } else {
        s
    };
    run(t, end, s0)
}

/// Scanning a comment body skips to the next `*`; its result is `Ok` of the
/// offset just after a `/`.
pub proof fn lemma_comment_body(t: Seq<u8>, end: int, i: int, head: int)
    requires
        i <= end,
    ensures
        comment_body(t, end, i, head) == (if find_byte(t, end, i, ASTERISK) >= end {
            Err::<int, int>(head)
        } else {
            comment_body(t, end, find_byte(t, end, i, ASTERISK), head)
        }),
        comment_body(t, end, i, head) is Ok ==> i < comment_body(t, end, i, head)->Ok_0 <= end
            && t[comment_body(t, end, i, head)->Ok_0 - 1] == SLASH,
        comment_body(t, end, i, head) is Err ==> comment_body(t, end, i, head)->Err_0 == head || (
        i < comment_body(t, end, i, head)->Err_0 <= end),
    decreases end - i,
{
    if i < end {
        lemma_comment_body(t, end, i + 1, head);
        if t[i] == ASTERISK && i + 1 < end && t[i + 1] != SLASH {
            lemma_comment_body(t, end, i + 1, i + 1);
        }
    }
}

/// A comment ends after its start, on an ASCII byte.
pub proof fn lemma_comment_end(t: Seq<u8>, end: int, p: int)
    requires
        0 <= p < end,
    ensures
        comment_end(t, end, p) is Ok ==> p < comment_end(t, end, p)->Ok_0 <= end && t[comment_end(
            t,
            end,
            p,
        )->Ok_0 - 1] < 0x80u8,
        comment_end(t, end, p) is Err ==> p < comment_end(t, end, p)->Err_0 <= end,
{
    if p + 2 <= end {
        lemma_comment_body(t, end, p + 2, p + 2);
    }
}

/// A group closes on a `)`, after where the scan started.
pub proof fn lemma_paren_scan(t: Seq<u8>, end: int, i: int, depth: nat, quote: Option<u8>)
    requires
        0 <= i <= end,
        depth > 0,
    ensures
        i <= paren_scan(t, end, i, depth, quote).0 <= end,
        paren_scan(t, end, i, depth, quote).1 == 0 ==> paren_scan(t, end, i, depth, quote).0 > i
            && t[paren_scan(t, end, i, depth, quote).0 - 1] == RIGHT_PAREN,
        paren_scan(t, end, i, depth, quote).1 != 0 ==> paren_scan(t, end, i, depth, quote).0
            == end,
    decreases end - i,
{
    if i < end {
        match quote {
            Some(q) => {
                if t[i] == q {
                    lemma_paren_scan(t, end, i + 1, depth, None);
                } else if t[i] == BACKSLASH && i + 1 < end {
                    lemma_paren_scan(t, end, i + 2, depth, Some(q));
                } else {
                    lemma_paren_scan(t, end, i + 1, depth, Some(q));
                }
            },
            None => {
                if t[i] == LEFT_PAREN {
                    lemma_paren_scan(t, end, i + 1, depth + 1, None);
                } else if t[i] == RIGHT_PAREN {
                    if depth > 1 {
                        lemma_paren_scan(t, end, i + 1, (depth - 1) as nat, None);
                    } else {
                        assert(paren_scan(t, end, i + 1, 0, None) == (i + 1, 0nat));
                    }
                } else if t[i] == QUOTE || t[i] == APOSTROPHE {
                    lemma_paren_scan(t, end, i + 1, depth, Some(t[i]));
                } else {
                    lemma_paren_scan(t, end, i + 1, depth, None);
                }
            },
        }
    }
}

/// The bytes from the last non-whitespace byte of a range to its end are whitespace.
pub proof fn lemma_last_solid(t: Seq<u8>, a: int, b: int)
    requires
        a <= b,
    ensures
        a <= last_solid(t, a, b) <= b,
        last_solid(t, a, b) < b ==> is_space_byte(t[last_solid(t, a, b)]),
        last_solid(t, a, b) > a ==> !is_space_byte(t[last_solid(t, a, b) - 1]),
    decreases b - a,
{
    if b > a && is_space_byte(t[b - 1]) {
        lemma_last_solid(t, a, b - 1);
    }
}

pub proof fn lemma_separators_end(t: Seq<u8>, end: int, i: int)
    requires
        i <= end,
    ensures
        separators_end(t, end, i) is Ok ==> i <= separators_end(t, end, i)->Ok_0 < end,
        separators_end(t, end, i) is Err ==> separators_end(t, end, i)->Err_0 == end,
    decreases end - i,
{
    if i < end && (t[i] == SEMICOLON || is_space_byte(t[i])) {
        lemma_separators_end(t, end, i + 1);
    }
}

/// Whitespace before the separators of a declaration changes nothing.
pub proof fn lemma_separators_after_spaces(t: Seq<u8>, end: int, i: int)
    requires
        i <= end,
    ensures
        separators_end(t, end, skip_spaces_from(t, end, i)) == separators_end(t, end, i),
    decreases end - i,
{
    if i < end && is_space_byte(t[i]) {
        lemma_separators_after_spaces(t, end, i + 1);
    }
}

} // verus!
