//! The token type of the small scripting-language front end that drives the
//! parser in examples: keywords, identifiers, integers, punctuation and
//! operators, plus a catch-all error token.

use vstd::prelude::*;

verus! {

use vstd::string::StringExecFns;

use crate::text::push_dec_signed;
use crate::text::spec_dec_signed;

/// One lexed token.
#[derive(Clone, Debug, PartialEq)]
pub enum Token {
    KeywordVar,
    KeywordPrint,
    Identifier(String),
    Integer(i64),
    LParen,
    RParen,
    Assign,
    Semicolon,
    OperatorAdd,
    OperatorSub,
    OperatorMul,
    OperatorDiv,
    Error,
}

/// The display text of a token: its variant name, with the identifier text
/// (verbatim, in quotes) or the integer value of the carrying variants.
pub open spec fn spec_token_display(t: Token) -> Seq<char> {
    match t {
        Token::KeywordVar => "KeywordVar"@,
        Token::KeywordPrint => "KeywordPrint"@,
        Token::Identifier(s) => "Identifier(\""@ + s@ + "\")"@,
        Token::Integer(n) => "Integer("@ + spec_dec_signed(n as int) + ")"@,
        Token::LParen => "LParen"@,
        Token::RParen => "RParen"@,
        Token::Assign => "Assign"@,
        Token::Semicolon => "Semicolon"@,
        Token::OperatorAdd => "OperatorAdd"@,
        Token::OperatorSub => "OperatorSub"@,
        Token::OperatorMul => "OperatorMul"@,
        Token::OperatorDiv => "OperatorDiv"@,
        Token::Error => "Error"@,
    }
}

impl Token {
    /// Renders the token for diagnostics.
    pub fn display_string(&self) -> (r: String)
        ensures
            r@ == spec_token_display(*self),
    {
        let mut out = String::new();
        match self {
            Token::KeywordVar => {
                out.append("KeywordVar");
            },
            Token::KeywordPrint => {
                out.append("KeywordPrint");
            },
            Token::Identifier(s) => {
                out.append("Identifier(\"");
                out.append(s.as_str());
                out.append("\")");
                proof {
                    assert(out@ =~= spec_token_display(*self));
                }
            },
            Token::Integer(n) => {
                out.append("Integer(");
                push_dec_signed(&mut out, *n);
                out.append(")");
                proof {
                    assert(out@ =~= spec_token_display(*self));
                }
            },
            Token::LParen => {
                out.append("LParen");
            },
            Token::RParen => {
                out.append("RParen");
            },
            Token::Assign => {
                out.append("Assign");
            },
            Token::Semicolon => {
                out.append("Semicolon");
            },
            Token::OperatorAdd => {
                out.append("OperatorAdd");
            },
            Token::OperatorSub => {
                out.append("OperatorSub");
            },
            Token::OperatorMul => {
                out.append("OperatorMul");
            },
            Token::OperatorDiv => {
                out.append("OperatorDiv");
            },
            Token::Error => {
                out.append("Error");
            },
        }
        out
    }
}

} // verus!
