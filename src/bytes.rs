//! The ASCII bytes that the tokenizer tells apart.
use vstd::prelude::*;

verus! {

pub const AT_SIGN: u8 = 0x40;
pub const HASH: u8 = 0x23;
pub const DOT: u8 = 0x2E;
pub const ASTERISK: u8 = 0x2A;
pub const COLON: u8 = 0x3A;
pub const SEMICOLON: u8 = 0x3B;
pub const COMMA: u8 = 0x2C;
pub const LEFT_BRACKET: u8 = 0x5B;
pub const RIGHT_BRACKET: u8 = 0x5D;
pub const LEFT_BRACE: u8 = 0x7B;
pub const RIGHT_BRACE: u8 = 0x7D;
pub const LEFT_PAREN: u8 = 0x28;
pub const RIGHT_PAREN: u8 = 0x29;
pub const GREATER_THAN: u8 = 0x3E;
pub const PLUS: u8 = 0x2B;
pub const TILDE: u8 = 0x7E;
pub const SLASH: u8 = 0x2F;
pub const BACKSLASH: u8 = 0x5C;
pub const QUOTE: u8 = 0x22;
pub const APOSTROPHE: u8 = 0x27;

} // verus!
