use vstd::prelude::*;
use vstd::string::StringSliceAdditionalSpecFns;
use crate::bytes::{
    APOSTROPHE, ASTERISK, AT_SIGN, BACKSLASH, COLON, COMMA, DOT, GREATER_THAN, HASH, LEFT_BRACE,
    LEFT_BRACKET, LEFT_PAREN, PLUS, QUOTE, RIGHT_BRACE, RIGHT_BRACKET, RIGHT_PAREN, SEMICOLON,
    SLASH, TILDE,
};
use crate::error::{position_of, Error};
use crate::scan::{
    at, combinator_of, comment_body, declaration_step, initial_state, last_solid,
    lemma_comment_body, lemma_comment_end, lemma_last_solid, lemma_paren_scan,
    lemma_separators_after_spaces, modes_agree, next_spec, paren_scan, rule_step, run,
    scan_attribute, scan_comment, scan_property, scan_pseudo, scan_value, scan_word,
    separators_end, take_ident, trimmed_end, valid_state, Lexeme, Scan, ScanState, Span, State,
};
use crate::stream::{
    ident_end, is_space, is_space_byte, lemma_closing_paren, lemma_find_byte, lemma_find_either, lemma_ident_end,
    lemma_skip_spaces, next_to_ascii, skip_spaces_from, Stream,
};

verus! {

/// CSS combinator.
#[derive(PartialEq, Eq, Debug, Clone, Copy)]
pub enum Combinator {
    /// Descendant selector
    Space,
    /// Child selector
    GreaterThan,
    /// Adjacent sibling selector
    Plus,
    /// General sibling selector
    Tilde,
}

/// CSS token. Each text is a slice of the source.
#[derive(PartialEq, Debug)]
pub enum Token<'a> {
    /// Universal selector, `*`
    UniversalSelector,
    /// Type selector
    TypeSelector(&'a str),
    /// ID selector, without the `#`
    IdSelector(&'a str),
    /// Class selector, without the `.`
    ClassSelector(&'a str),
    /// Attribute selector: everything between `[` and `]`, unparsed
    AttributeSelector(&'a str),
    /// Pseudo-class, without the `:`
    PseudoClass {
        /// The selector name (e.g., "nth-child", "hover")
        selector: &'a str,
        /// The raw text inside parentheses (e.g., "3" in ":nth-child(3)")
        value: Option<&'a str>,
    },
    /// A combinator between compound selectors
    Combinator(Combinator),
    /// Rules separator
    Comma,
    /// Block start, `{`
    BlockStart,
    /// Block end, `}`
    BlockEnd,
    /// Declaration: property name and value, both trimmed
    Declaration(&'a str, &'a str),
    /// `@` rule, without the `@`. The rest of its head comes as `AtStr` tokens,
    /// for example `@keyframes mymove` = `AtRule("keyframes"), AtStr("mymove")`.
    AtRule(&'a str),
    /// Raw text inside of a block
    DeclarationStr(&'a str),
    /// A piece of an `@`-rule head: an identifier, or a group in parentheses
    /// with the parentheses
    AtStr(&'a str),
    /// Same as PseudoClass, but with two colons (`::thing`).
    DoublePseudoClass {
        /// The selector name (e.g., "before", "after")
        selector: &'a str,
        /// The raw text inside parentheses
        value: Option<&'a str>,
    },
    /// End of stream: parsing is finished.
    EndOfStream,
}

/// The bytes of `s` are those of the range `sp` of `t`.
pub open spec fn text_is(s: &str, t: Seq<u8>, sp: Span) -> bool {
    s.spec_bytes() == t.subrange(sp.start, sp.end)
}

pub open spec fn opt_text_is(v: Option<&str>, t: Seq<u8>, sp: Option<Span>) -> bool {
    match (v, sp) {
        (None, None) => true,
        (Some(s), Some(p)) => text_is(s, t, p),
        _ => false,
    }
}

impl<'a> Token<'a> {
    /// This token is the lexeme `l` of the source `t`: the same kind, with
    /// each text the bytes of its range.
    pub open spec fn denotes(self, t: Seq<u8>, l: Lexeme) -> bool {
        match (self, l) {
            (Token::UniversalSelector, Lexeme::UniversalSelector) => true,
            (Token::TypeSelector(s), Lexeme::TypeSelector(sp)) => text_is(s, t, sp),
            (Token::IdSelector(s), Lexeme::IdSelector(sp)) => text_is(s, t, sp),
            (Token::ClassSelector(s), Lexeme::ClassSelector(sp)) => text_is(s, t, sp),
            (Token::AttributeSelector(s), Lexeme::AttributeSelector(sp)) => text_is(s, t, sp),
            (
                Token::PseudoClass { selector, value },
                Lexeme::PseudoClass { selector: sp, value: vp },
            ) => text_is(selector, t, sp) && opt_text_is(value, t, vp),
            (
                Token::DoublePseudoClass { selector, value },
                Lexeme::DoublePseudoClass { selector: sp, value: vp },
            ) => text_is(selector, t, sp) && opt_text_is(value, t, vp),
            (Token::Combinator(c), Lexeme::Combinator(k)) => c == k,
            (Token::Comma, Lexeme::Comma) => true,
            (Token::BlockStart, Lexeme::BlockStart) => true,
            (Token::BlockEnd, Lexeme::BlockEnd) => true,
            (Token::Declaration(n, v), Lexeme::Declaration(np, vp)) => text_is(n, t, np) && text_is(
                v,
                t,
                vp,
            ),
            (Token::AtRule(s), Lexeme::AtRule(sp)) => text_is(s, t, sp),
            (Token::AtStr(s), Lexeme::AtStr(sp)) => text_is(s, t, sp),
            (Token::EndOfStream, Lexeme::EndOfStream) => true,
            _ => false,
        }
    }
}

/// `r` is what a call that ended in state `s` with outcome `o` returns: the
/// token for the lexeme, or the error at the offset where the scan stopped.
pub open spec fn result_is<'a>(t: Seq<u8>, r: Result<Token<'a>, Error>, s: ScanState, o: Scan) -> bool {
    match o {
        Scan::Emit(l) => r is Ok && r->Ok_0.denotes(t, l),
        Scan::Fail => r == Err::<Token<'a>, Error>(Error::UnknownToken(position_of(t, s.pos))),
        Scan::Again => false,
    }
}

/// As `result_is`, for one pass, where `Ok(None)` stands for trivia skipped.
pub open spec fn pass_is<'a>(t: Seq<u8>, r: Result<Option<Token<'a>>, Error>, s: ScanState, o: Scan) -> bool {
    match o {
        Scan::Emit(l) => r is Ok && r->Ok_0 is Some && r->Ok_0->Some_0.denotes(t, l),
        Scan::Fail => r == Err::<Option<Token<'a>>, Error>(Error::UnknownToken(position_of(t, s.pos))),
        Scan::Again => r == Ok::<Option<Token<'a>>, Error>(None),
    }
}

/// CSS tokenizer.
pub struct Tokenizer<'a> {
    stream: Stream<'a>,
    state: State,
    after_selector: bool,
    has_at_rule: bool,
    at_start: bool,
    /// One entry per open block: whether an `@`-rule opened it.
    nesting_stack: Vec<bool>,
}

impl<'a> View for Tokenizer<'a> {
    type V = ScanState;

    closed spec fn view(&self) -> ScanState {
        ScanState {
            mode: self.state,
            after_selector: self.after_selector,
            has_at_rule: self.has_at_rule,
            at_start: self.at_start,
            stack: self.nesting_stack@,
            pos: self.stream.pos as int,
        }
    }
}

impl<'a> Tokenizer<'a> {
    /// The bytes of the whole source text.
    pub closed spec fn source(&self) -> Seq<u8> {
        self.stream.bytes@
    }

    /// The offset at which reading stops.
    pub closed spec fn bound(&self) -> int {
        self.stream.end as int
    }

    /// The cursor lies within the source and the mode agrees with the depth of nesting.
    pub closed spec fn wf(&self) -> bool {
        &&& self.stream.wf()
        &&& modes_agree(self@)
    }

    /// Constructs a new `Tokenizer`.
    pub fn new(text: &'a str) -> (r: Tokenizer<'a>)
        ensures
            r.wf(),
            r.source() == text.spec_bytes(),
            r.bound() == text.spec_bytes().len(),
            r@ == initial_state(0),
    {
        let r = Tokenizer {
            stream: Stream::new(text),
            state: State::Rule,
            after_selector: false,
            has_at_rule: false,
            at_start: true,
            nesting_stack: Vec::new(),
        };
        assert(r@.stack =~= Seq::<bool>::empty());
        r
    }

    /// Constructs a new bounded `Tokenizer`, which reads `text` from `start` up to `end`.
    ///
    /// It can be useful if CSS data is inside other data, like HTML: error
    /// positions are those in the whole of `text`.
    pub fn new_bound(text: &'a str, start: usize, end: usize) -> (r: Tokenizer<'a>)
        requires
            start <= end <= text.spec_bytes().len(),
        ensures
            r.wf(),
            r.source() == text.spec_bytes(),
            r.bound() == end,
            r@ == initial_state(start as int),
    {
        let r = Tokenizer {
            stream: Stream::new_bound(text, start, end),
            state: State::Rule,
            after_selector: false,
            has_at_rule: false,
            at_start: true,
            nesting_stack: Vec::new(),
        };
        assert(r@.stack =~= Seq::<bool>::empty());
        r
    }

    /// Returns a current position in the text.
    pub fn pos(&self) -> (r: usize)
        ensures
            r == self@.pos,
    {
        self.stream.pos()
    }
}

impl<'a> Tokenizer<'a> {
    /// The stream reads what it read before, up to the same bound.
    spec fn keeps_source(&self, other: &Tokenizer<'a>) -> bool {
        self.stream.same_source(&other.stream)
    }

    /// The error for the byte under the cursor.
    fn unknown_token(&self) -> (e: Error)
        requires
            self.stream.wf(),
        ensures
            e == Error::UnknownToken(position_of(self.source(), self@.pos)),
    {
        Error::UnknownToken(self.stream.gen_error_pos())
    }

    /// Consumes the identifier under the cursor; an error when it is empty.
    fn consume_ident(&mut self) -> (r: Result<&'a str, Error>)
        requires
            old(self).wf(),
        ensures
            final(self).wf(),
            final(self).keeps_source(old(self)),
            final(self)@ == take_ident(old(self).source(), old(self).bound(), old(self)@).0,
            match take_ident(old(self).source(), old(self).bound(), old(self)@).1 {
                None => r == Err::<&'a str, Error>(
                    Error::UnknownToken(position_of(old(self).source(), final(self)@.pos)),
                ),
                Some(sp) => r is Ok && text_is(r->Ok_0, old(self).source(), sp),
            },
    {
        let ghost t = self.source();
        let ghost end = self.bound();
        let start = self.stream.pos();
        while !self.stream.at_end() && self.stream.is_ident_raw()
            invariant
                self.wf(),
                self.keeps_source(old(self)),
                t == self.source(),
                end == self.bound(),
                start == old(self)@.pos <= self@.pos,
                self@ == at(old(self)@, self@.pos),
                ident_end(t, end, self@.pos) == ident_end(t, end, start as int),
            decreases self.stream.end - self.stream.pos,
        {
            self.stream.advance_raw(1);
        }
        if start == self.stream.pos() {
            return Err(self.unknown_token());
        }
        proof {
            lemma_ident_end(t, end, start as int);
        }
        Ok(self.stream.slice_region_raw_str(start, self.stream.pos()))
    }

    /// Consumes a comment at the `/` under the cursor. `Ok(false)` when a byte
    /// other than `*` follows the `/`; an error when the `/` is last or the
    /// comment is not closed before the end.
    fn consume_comment(&mut self) -> (r: Result<bool, Error>)
        requires
            old(self).wf(),
            old(self)@.pos < old(self).bound(),
            old(self).source()[old(self)@.pos] == SLASH,
        ensures
            final(self).wf(),
            final(self).keeps_source(old(self)),
            ({
                let t = old(self).source();
                let end = old(self).bound();
                let q = old(self)@.pos + 1;
                &&& q >= end ==> final(self)@ == at(old(self)@, q) && r == Err::<bool, Error>(
                    Error::UnknownToken(position_of(t, q)),
                )
                &&& q < end && t[q] != ASTERISK ==> final(self)@ == at(old(self)@, q) && r == Ok::<
                    bool,
                    Error,
                >(false)
                &&& q < end && t[q] == ASTERISK ==> match comment_body(t, end, q + 1, q + 1) {
                    Ok(p) => final(self)@ == at(old(self)@, p) && r == Ok::<bool, Error>(true),
                    Err(p) => final(self)@ == at(old(self)@, p) && r == Err::<bool, Error>(
                        Error::UnknownToken(position_of(t, p)),
                    ),
                }
            }),
    {
        let ghost t = self.source();
        let ghost end = self.bound();
        self.stream.advance_raw(1);
        match self.stream.is_char_eq(ASTERISK) {
            Err(e) => return Err(e),
            Ok(false) => return Ok(false),
            Ok(true) => {},
        }
        self.stream.advance_raw(1);
        let ghost first = self@.pos;
        while !self.stream.at_end()
            invariant
                self.wf(),
                self.keeps_source(old(self)),
                t == self.source(),
                end == self.bound(),
                self@ == at(old(self)@, self@.pos),
                first == old(self)@.pos + 2,
                old(self)@.pos + 1 < end,
                t[old(self)@.pos + 1] == ASTERISK,
                comment_body(t, end, first, first) == comment_body(t, end, self@.pos, self@.pos),
            decreases self.stream.end - self.stream.pos,
        {
            let ghost head = self@.pos;
            proof {
                lemma_comment_body(t, end, head, head);
                lemma_find_byte(t, end, head, ASTERISK);
            }
            let len = match self.stream.length_to(ASTERISK) {
                Ok(n) => n,
                Err(e) => return Err(e),
            };
            self.stream.advance_raw(len + 1);
            match self.stream.is_char_eq(SLASH) {
                Err(e) => return Err(e),
                Ok(true) => {
                    self.stream.advance_raw(1);
                    return Ok(true);
                },
                Ok(false) => {},
            }
        }
        Err(self.unknown_token())
    }

    /// Consumes a group in parentheses, from the `(` under the cursor through
    /// the `)` that closes it, then the whitespace after it.
    fn consume_parenthesized_content(&mut self) -> (r: Result<&'a str, Error>)
        requires
            old(self).wf(),
            old(self)@.pos < old(self).bound(),
            old(self).source()[old(self)@.pos] == LEFT_PAREN,
        ensures
            final(self).wf(),
            final(self).keeps_source(old(self)),
            ({
                let t = old(self).source();
                let end = old(self).bound();
                let (q, depth) = paren_scan(t, end, old(self)@.pos + 1, 1, None);
                &&& depth != 0 ==> final(self)@ == at(old(self)@, q) && r == Err::<
                    &'a str,
                    Error,
                >(Error::UnknownToken(position_of(t, q)))
                &&& depth == 0 ==> final(self)@ == at(
                    old(self)@,
                    skip_spaces_from(t, end, q),
                ) && r is Ok && text_is(r->Ok_0, t, Span { start: old(self)@.pos, end: q })
            }),
    {
        let ghost t = self.source();
        let ghost end = self.bound();
        let start = self.stream.pos();
        self.stream.advance_raw(1);
        let mut depth: usize = 1;
        let mut quote: Option<u8> = None;
        while !self.stream.at_end() && (quote.is_some() || depth > 0)
            invariant
                self.wf(),
                self.keeps_source(old(self)),
                t == self.source(),
                end == self.bound(),
                self@ == at(old(self)@, self@.pos),
                start < self@.pos,
                depth <= self@.pos - start,
                quote is Some ==> depth > 0,
                paren_scan(t, end, self@.pos, depth as nat, quote) == paren_scan(
                    t,
                    end,
                    start + 1,
                    1,
                    None,
                ),
            decreases self.stream.end - self.stream.pos,
        {
            let c = self.stream.curr_char_raw();
            match quote {
                Some(q) => {
                    self.stream.advance_raw(1);
                    if c == q {
                        quote = None;
                    } else if c == BACKSLASH && !self.stream.at_end() {
                        self.stream.advance_raw(1);
                    }
                },
                None => {
                    if c == LEFT_PAREN {
                        depth = depth + 1;
                    } else if c == RIGHT_PAREN {
                        depth = depth - 1;
                    } else if c == QUOTE || c == APOSTROPHE {
                        quote = Some(c);
                    }
                    self.stream.advance_raw(1);
                },
            }
        }
        if depth != 0 {
            return Err(self.unknown_token());
        }
        proof {
            lemma_paren_scan(t, end, start + 1, 1, None);
        }
        let s = self.stream.slice_region_raw_str(start, self.stream.pos());
        self.stream.skip_spaces();
        Ok(s)
    }

    /// Consumes a pseudo-class at the `:` under the cursor.
    fn consume_pseudo_class(&mut self) -> (r: Result<Option<Token<'a>>, Error>)
        requires
            old(self).wf(),
            old(self)@.pos < old(self).bound(),
        ensures
            final(self).wf(),
            final(self).keeps_source(old(self)),
            final(self)@ == scan_pseudo(old(self).source(), old(self).bound(), old(self)@).0,
            pass_is(
                old(self).source(),
                r,
                final(self)@,
                scan_pseudo(old(self).source(), old(self).bound(), old(self)@).1,
            ),
            r != Ok::<Option<Token<'a>>, Error>(None),
    {
        let ghost t = self.source();
        let ghost end = self.bound();
        self.after_selector = true;
        self.has_at_rule = false;
        self.stream.advance_raw(1);
        let is_double_colon = match self.stream.is_char_eq(COLON) {
            Ok(b) => b,
            Err(e) => return Err(e),
        };
        if is_double_colon {
            self.stream.advance_raw(1);
        }
        let s = match self.consume_ident() {
            Ok(s) => s,
            Err(e) => return Err(e),
        };
        let ghost q = self@.pos;
        let has_argument = match self.stream.curr_char() {
            Ok(c) => c == LEFT_PAREN,
            Err(_) => false,
        };
        if has_argument {
            self.stream.advance_raw(1);
            proof {
                lemma_closing_paren(t, end, q + 1, 0);
            }
            let inner_len = match self.stream.length_to_closing_paren() {
                Ok(n) => n,
                Err(e) => return Err(e),
            };
            let inner = self.stream.read_raw_str(inner_len);
            self.stream.advance_raw(1);
            Ok(
                Some(
                    if is_double_colon {
                        Token::DoublePseudoClass { selector: s, value: Some(inner) }
                    } else {
                        Token::PseudoClass { selector: s, value: Some(inner) }
                    },
                ),
            )
        } else {
            Ok(
                Some(
                    if is_double_colon {
                        Token::DoublePseudoClass { selector: s, value: None }
                    } else {
                        Token::PseudoClass { selector: s, value: None }
                    },
                ),
            )
        }
    }

    /// Consumes an attribute selector at the `[` under the cursor.
    fn consume_attribute(&mut self) -> (r: Result<Option<Token<'a>>, Error>)
        requires
            old(self).wf(),
            old(self)@.pos < old(self).bound(),
            old(self).source()[old(self)@.pos] == LEFT_BRACKET,
        ensures
            final(self).wf(),
            final(self).keeps_source(old(self)),
            final(self)@ == scan_attribute(old(self).source(), old(self).bound(), old(self)@).0,
            pass_is(
                old(self).source(),
                r,
                final(self)@,
                scan_attribute(old(self).source(), old(self).bound(), old(self)@).1,
            ),
            r != Ok::<Option<Token<'a>>, Error>(None),
    {
        let ghost t = self.source();
        let ghost end = self.bound();
        self.after_selector = true;
        self.has_at_rule = false;
        self.stream.advance_raw(1);
        proof {
            lemma_find_byte(t, end, self@.pos, RIGHT_BRACKET);
        }
        let len = match self.stream.length_to(RIGHT_BRACKET) {
            Ok(n) => n,
            Err(e) => return Err(e),
        };
        let s = self.stream.read_raw_str(len);
        self.stream.advance_raw(1);
        self.stream.skip_spaces();
        Ok(Some(Token::AttributeSelector(s)))
    }

    /// Consumes an identifier in a rule head: a piece of an `@`-rule head, or a type selector.
    fn consume_word(&mut self) -> (r: Result<Option<Token<'a>>, Error>)
        requires
            old(self).wf(),
        ensures
            final(self).wf(),
            final(self).keeps_source(old(self)),
            final(self)@ == scan_word(old(self).source(), old(self).bound(), old(self)@).0,
            pass_is(
                old(self).source(),
                r,
                final(self)@,
                scan_word(old(self).source(), old(self).bound(), old(self)@).1,
            ),
            r != Ok::<Option<Token<'a>>, Error>(None),
    {
        let s = match self.consume_ident() {
            Ok(s) => s,
            Err(e) => return Err(e),
        };
        let token = if self.has_at_rule {
            Token::AtStr(s)
        } else {
            Token::TypeSelector(s)
        };
        self.after_selector = true;
        Ok(Some(token))
    }
}

impl<'a> Tokenizer<'a> {
    /// Consumes a comment at the `/` under the cursor: trivia, or an error.
    fn skip_comment(&mut self) -> (r: Result<Option<Token<'a>>, Error>)
        requires
            old(self).wf(),
            old(self)@.pos < old(self).bound(),
            old(self).source()[old(self)@.pos] == SLASH,
        ensures
            final(self).wf(),
            final(self).keeps_source(old(self)),
            final(self)@ == scan_comment(old(self).source(), old(self).bound(), old(self)@).0,
            pass_is(
                old(self).source(),
                r,
                final(self)@,
                scan_comment(old(self).source(), old(self).bound(), old(self)@).1,
            ),
            r is Ok ==> old(self)@.pos < final(self)@.pos,
    {
        proof {
            lemma_comment_end(self.source(), self.bound(), self@.pos);
        }
        match self.consume_comment() {
            Ok(true) => Ok(None),
            Ok(false) => Err(self.unknown_token()),
            Err(e) => Err(e),
        }
    }

    /// One pass in a rule head.
    fn consume_rule(&mut self) -> (r: Result<Option<Token<'a>>, Error>)
        requires
            old(self).wf(),
            old(self)@.pos < old(self).bound(),
            old(self)@.mode == State::Rule,
        ensures
            final(self).wf(),
            final(self).keeps_source(old(self)),
            final(self)@ == rule_step(old(self).source(), old(self).bound(), old(self)@).0,
            pass_is(
                old(self).source(),
                r,
                final(self)@,
                rule_step(old(self).source(), old(self).bound(), old(self)@).1,
            ),
            r == Ok::<Option<Token<'a>>, Error>(None) ==> old(self)@.pos < final(self)@.pos,
    {
        let ghost t = self.source();
        let ghost end = self.bound();
        let c = self.stream.curr_char_raw();
        if c == AT_SIGN {
            self.after_selector = true;
            self.has_at_rule = true;
            self.stream.advance_raw(1);
            match self.consume_ident() {
                Ok(s) => Ok(Some(Token::AtRule(s))),
                Err(e) => Err(e),
            }
        } else if c == HASH || c == DOT {
            self.after_selector = true;
            self.has_at_rule = false;
            self.stream.advance_raw(1);
            match self.consume_ident() {
                Ok(s) => Ok(Some(if c == HASH { Token::IdSelector(s) } else { Token::ClassSelector(s) })),
                Err(e) => Err(e),
            }
        } else if c == ASTERISK {
            self.after_selector = true;
            self.has_at_rule = false;
            self.stream.advance_raw(1);
            self.stream.skip_spaces();
            Ok(Some(Token::UniversalSelector))
        } else if c == COLON {
            self.consume_pseudo_class()
        } else if c == LEFT_BRACKET {
            self.consume_attribute()
        } else if c == COMMA {
            self.after_selector = false;
            self.has_at_rule = false;
            self.stream.advance_raw(1);
            self.stream.skip_spaces();
            Ok(Some(Token::Comma))
        } else if c == LEFT_BRACE {
            self.nesting_stack.push(self.has_at_rule);
            self.after_selector = false;
            self.has_at_rule = false;
            self.state = State::Declaration;
            self.stream.advance_raw(1);
            Ok(Some(Token::BlockStart))
        } else if c == GREATER_THAN || c == PLUS || c == TILDE {
            if self.after_selector {
                self.after_selector = false;
                self.has_at_rule = false;
                self.stream.advance_raw(1);
                self.stream.skip_spaces();
                Ok(Some(Token::Combinator(combinator(c))))
            } else {
                Err(self.unknown_token())
            }
        } else if c == SLASH {
            self.skip_comment()
        } else if c == LEFT_PAREN && self.has_at_rule {
            match self.consume_parenthesized_content() {
                Ok(s) => {
                    self.after_selector = true;
                    Ok(Some(Token::AtStr(s)))
                },
                Err(e) => Err(e),
            }
        } else if self.stream.is_space_raw() {
            proof {
                lemma_skip_spaces(t, end, self@.pos);
            }
            self.stream.skip_spaces();
            if !self.after_selector {
                return Ok(None);
            }
            let n = match self.stream.curr_char() {
                Ok(n) => n,
                Err(e) => return Err(e),
            };
            if n == LEFT_BRACE || n == SLASH || n == GREATER_THAN || n == PLUS || n == TILDE || n
                == ASTERISK || n == LEFT_PAREN {
                return Ok(None);
            }
            self.after_selector = false;
            if !self.has_at_rule {
                return Ok(Some(Token::Combinator(Combinator::Space)));
            }
            self.consume_word()
        } else {
            self.consume_word()
        }
    }
}

impl<'a> Tokenizer<'a> {
    /// Consumes what follows an identifier inside a block: the value of a
    /// declaration after a `:`, else nothing, the identifier being a nested
    /// type selector.
    fn consume_property(&mut self) -> (r: Result<Option<Token<'a>>, Error>)
        requires
            old(self).wf(),
        ensures
            final(self).wf(),
            final(self).keeps_source(old(self)),
            final(self)@ == scan_property(old(self).source(), old(self).bound(), old(self)@).0,
            pass_is(
                old(self).source(),
                r,
                final(self)@,
                scan_property(old(self).source(), old(self).bound(), old(self)@).1,
            ),
            r != Ok::<Option<Token<'a>>, Error>(None),
    {
        let ghost t = self.source();
        let ghost end = self.bound();
        proof {
            reveal(scan_property);
        }
        let name = match self.consume_ident() {
            Ok(s) => s,
            Err(e) => return Err(e),
        };
        self.stream.skip_spaces();
        match self.stream.is_char_eq(SLASH) {
            Err(e) => return Err(e),
            Ok(true) => {
                proof {
                    lemma_comment_end(t, end, self@.pos);
                }
                match self.consume_comment() {
                    Ok(true) => {},
                    Ok(false) => return Err(self.unknown_token()),
                    Err(e) => return Err(e),
                }
            },
            Ok(false) => {},
        }
        match self.stream.is_char_eq(LEFT_BRACE) {
            Err(e) => return Err(e),
            Ok(true) => {
                // a nested rule: `name { ... }`
                self.after_selector = true;
                return Ok(Some(Token::TypeSelector(name)));
            },
            Ok(false) => {},
        }
        if !self.stream.curr_char_raw_eq(COLON) {
            self.after_selector = true;
            return Ok(Some(Token::TypeSelector(name)));
        }
        proof {
            reveal(scan_property);
        }
        self.consume_value(name, Ghost(take_ident(t, end, old(self)@).1->Some_0))
    }

    /// Consumes the value of the declaration `name`, from the `:` under the cursor.
    fn consume_value(&mut self, name: &'a str, name_span: Ghost<Span>) -> (r: Result<
        Option<Token<'a>>,
        Error,
    >)
        requires
            old(self).wf(),
            old(self)@.pos < old(self).bound(),
            old(self).source()[old(self)@.pos] == COLON,
            text_is(name, old(self).source(), name_span@),
        ensures
            final(self).wf(),
            final(self).keeps_source(old(self)),
            final(self)@ == scan_value(old(self).source(), old(self).bound(), old(self)@, name_span@).0,
            pass_is(
                old(self).source(),
                r,
                final(self)@,
                scan_value(old(self).source(), old(self).bound(), old(self)@, name_span@).1,
            ),
    {
        let ghost t = self.source();
        let ghost end = self.bound();
        let ghost p2 = self@.pos;
        self.stream.advance_raw(1);
        proof {
            lemma_skip_spaces(t, end, p2 + 1);
        }
        self.stream.skip_spaces();
        match self.stream.is_char_eq(SLASH) {
            Err(e) => return Err(e),
            Ok(true) => {
                proof {
                    lemma_comment_end(t, end, self@.pos);
                }
                match self.consume_comment() {
                    Ok(true) => {},
                    Ok(false) => return Err(self.unknown_token()),
                    Err(e) => return Err(e),
                }
            },
            Ok(false) => {},
        }
        let start = self.stream.pos();
        assert(next_to_ascii(t, start as int));
        proof {
            lemma_find_either(t, end, start as int, SEMICOLON, RIGHT_BRACE);
        }
        let len = match self.stream.length_to_either(SEMICOLON, RIGHT_BRACE) {
            Ok(n) => n,
            Err(e) => return Err(e),
        };
        if len == 0 {
            return Err(self.unknown_token());
        }
        // cut the whitespace at the end of the value
        let stop = start + len;
        let mut k = stop;
        while k > start && is_space(self.stream.bytes[k - 1])
            invariant
                self.wf(),
                t == self.source(),
                start <= k <= stop <= self.stream.end,
                last_solid(t, start as int, k as int) == last_solid(t, start as int, stop as int),
            decreases k,
        {
            k = k - 1;
        }
        proof {
            lemma_last_solid(t, start as int, stop as int);
        }
        let value_end = if k == start {
            stop
        } else {
            k
        };
        let value = self.stream.slice_region_raw_str(start, value_end);
        self.stream.advance_raw(len);
        let ghost outcome = match separators_end(t, end, stop as int) {
            Err(e) => (at(old(self)@, e), Scan::Fail),
            Ok(p5) => (
                at(old(self)@, p5),
                Scan::Emit(
                    Lexeme::Declaration(
                        name_span@,
                        Span { start: start as int, end: trimmed_end(t, start as int, stop as int) },
                    ),
                ),
            ),
        };
        assert(scan_value(t, end, old(self)@, name_span@) == outcome);
        match self.consume_separators() {
            Ok(()) => Ok(Some(Token::Declaration(name, value))),
            Err(e) => Err(e),
        }
    }

    /// Consumes the `;` and whitespace after a declaration; an error when they run to the end.
    fn consume_separators(&mut self) -> (r: Result<(), Error>)
        requires
            old(self).wf(),
        ensures
            final(self).wf(),
            final(self).keeps_source(old(self)),
            match separators_end(old(self).source(), old(self).bound(), old(self)@.pos) {
                Ok(p) => final(self)@ == at(old(self)@, p) && r == Ok::<(), Error>(()),
                Err(p) => final(self)@ == at(old(self)@, p) && r == Err::<(), Error>(
                    Error::UnknownToken(position_of(old(self).source(), p)),
                ),
            },
    {
        let ghost t = self.source();
        let ghost end = self.bound();
        proof {
            lemma_skip_spaces(t, end, self@.pos);
            lemma_separators_after_spaces(t, end, self@.pos);
        }
        self.stream.skip_spaces();
        loop
            invariant
                self.wf(),
                self.keeps_source(old(self)),
                t == self.source(),
                end == self.bound(),
                self@ == at(old(self)@, self@.pos),
                self@.pos < end ==> !is_space_byte(t[self@.pos]),
                separators_end(t, end, self@.pos) == separators_end(t, end, old(self)@.pos),
            decreases self.stream.end - self.stream.pos,
        {
            if self.stream.at_end() {
                return Err(self.unknown_token());
            }
            if !self.stream.curr_char_raw_eq(SEMICOLON) {
                return Ok(());
            }
            self.stream.advance_raw(1);
            proof {
                lemma_skip_spaces(t, end, self@.pos);
                lemma_separators_after_spaces(t, end, self@.pos);
            }
            self.stream.skip_spaces();
        }
    }

    /// One pass inside a block.
    fn consume_declaration(&mut self) -> (r: Result<Option<Token<'a>>, Error>)
        requires
            old(self).wf(),
            old(self)@.pos < old(self).bound(),
            old(self)@.mode != State::Rule,
        ensures
            final(self).wf(),
            final(self).keeps_source(old(self)),
            final(self)@ == declaration_step(old(self).source(), old(self).bound(), old(self)@).0,
            pass_is(
                old(self).source(),
                r,
                final(self)@,
                declaration_step(old(self).source(), old(self).bound(), old(self)@).1,
            ),
            r == Ok::<Option<Token<'a>>, Error>(None) ==> old(self)@.pos < final(self)@.pos,
    {
        proof {
            lemma_skip_spaces(self.source(), self.bound(), self@.pos);
        }
        self.stream.skip_spaces();
        if self.stream.at_end() {
            return Ok(None);
        }
        let c = self.stream.curr_char_raw();
        if c == RIGHT_BRACE {
            let _ = self.nesting_stack.pop();
            match self.state {
                State::DeclarationRule => {
                    self.state = State::Declaration;
                },
                State::Declaration => {
                    if self.nesting_stack.len() == 0 {
                        self.state = State::Rule;
                    }
                },
                State::Rule => {},
            }
            self.has_at_rule = false;
            self.stream.advance_raw(1);
            self.stream.skip_spaces();
            Ok(Some(Token::BlockEnd))
        } else if c == LEFT_BRACE {
            self.nesting_stack.push(self.has_at_rule);
            self.after_selector = false;
            self.has_at_rule = false;
            self.state = State::DeclarationRule;
            self.stream.advance_raw(1);
            self.stream.skip_spaces();
            Ok(Some(Token::BlockStart))
        } else if c == AT_SIGN {
            // a nested `@`-rule
            self.after_selector = true;
            self.has_at_rule = true;
            self.stream.advance_raw(1);
            match self.consume_ident() {
                Ok(s) => {
                    self.stream.skip_spaces();
                    Ok(Some(Token::AtRule(s)))
                },
                Err(e) => Err(e),
            }
        } else if c == COLON {
            self.consume_pseudo_class()
        } else if c == HASH || c == DOT {
            self.after_selector = true;
            self.has_at_rule = false;
            self.stream.advance_raw(1);
            match self.consume_ident() {
                Ok(s) => Ok(Some(if c == HASH { Token::IdSelector(s) } else { Token::ClassSelector(s) })),
                Err(e) => Err(e),
            }
        } else if c == ASTERISK {
            self.after_selector = true;
            self.has_at_rule = false;
            self.stream.advance_raw(1);
            self.stream.skip_spaces();
            Ok(Some(Token::UniversalSelector))
        } else if c == LEFT_BRACKET {
            self.consume_attribute()
        } else if c == GREATER_THAN || c == PLUS || c == TILDE {
            self.after_selector = false;
            self.has_at_rule = false;
            self.stream.advance_raw(1);
            self.stream.skip_spaces();
            Ok(Some(Token::Combinator(combinator(c))))
        } else if c == COMMA {
            self.after_selector = false;
            self.has_at_rule = false;
            self.stream.advance_raw(1);
            self.stream.skip_spaces();
            Ok(Some(Token::Comma))
        } else if c == LEFT_PAREN && self.has_at_rule {
            match self.consume_parenthesized_content() {
                Ok(s) => {
                    self.after_selector = true;
                    Ok(Some(Token::AtStr(s)))
                },
                Err(e) => Err(e),
            }
        } else if c == SLASH {
            self.skip_comment()
        } else if self.has_at_rule {
            // a piece of a nested `@`-rule head, as `screen` in `@media screen`
            match self.consume_ident() {
                Ok(s) => {
                    self.stream.skip_spaces();
                    self.after_selector = true;
                    Ok(Some(Token::AtStr(s)))
                },
                Err(e) => Err(e),
            }
        } else {
            self.consume_property()
        }
    }

    /// Parses the next token.
    ///
    /// The new state and the result are those that `next_spec` gives: the
    /// token whose texts are the bytes of the ranges it names, or
    /// `UnknownToken` at the line and column where the scan stopped. Once
    /// `EndOfStream` has been returned, it is returned again.
    pub fn parse_next(&mut self) -> (r: Result<Token<'a>, Error>)
        requires
            old(self).wf(),
        ensures
            final(self).wf(),
            final(self).source() == old(self).source(),
            final(self).bound() == old(self).bound(),
            valid_state(final(self).source(), final(self).bound(), final(self)@),
            final(self)@ == next_spec(old(self).source(), old(self).bound(), old(self)@).0,
            result_is(
                old(self).source(),
                r,
                final(self)@,
                next_spec(old(self).source(), old(self).bound(), old(self)@).1,
            ),
    {
        let ghost t = self.source();
        let ghost end = self.bound();
        if self.at_start {
            self.stream.skip_spaces();
            self.at_start = false;
        }
        loop
            invariant
                self.wf(),
                self.keeps_source(old(self)),
                t == self.source(),
                end == self.bound(),
                run(t, end, self@) == next_spec(t, end, old(self)@),
            decreases self.stream.end - self.stream.pos,
        {
            if self.stream.at_end() {
                return Ok(Token::EndOfStream);
            }
            let r = match self.state {
                State::Rule => self.consume_rule(),
                _ => self.consume_declaration(),
            };
            match r {
                Ok(Some(token)) => return Ok(token),
                Ok(None) => {},
                Err(e) => return Err(e),
            }
        }
    }
}

/// The combinator for `>`, `+` or `~`.
fn combinator(c: u8) -> (r: Combinator)
    ensures
        r == combinator_of(c),
{
    if c == GREATER_THAN {
        Combinator::GreaterThan
    } else if c == PLUS {
        Combinator::Plus
    } else {
        Combinator::Tilde
    }
}

} // verus!
