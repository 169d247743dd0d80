//! The error type handed to users of a generated parser, and its mapping
//! combinators: each `map_*` rewrites one type parameter of the error while
//! provably leaving every other field untouched.

use vstd::prelude::*;

verus! {

use vstd::string::StringExecFns;

/// A parse error, generic over the location, token and error types of the
/// parser that produced it.
#[derive(Debug, PartialEq, Eq, PartialOrd, Ord)]
pub enum ParseError<Loc, Token, LError, PError> {
    /// An error captured by the parser from the lexer.
    LexerError { error: LError },
    /// The parser encountered an end of file it did not expect. The
    /// expected-token names are taken from the grammar and may not suit
    /// direct presentation to the user.
    UnrecognizedEof { location: Loc, expected: Vec<String> },
    /// The parser encountered a token it did not expect; the two locations
    /// span it.
    UnrecognizedToken { token: (Loc, Token, Loc), expected: Vec<String> },
    /// The parser encountered an additional, unexpected token.
    ExtraToken { token: (Loc, Token, Loc) },
    /// A custom error raised by a semantic action.
    User { error: PError },
}

/// An error the parser recovered from, with the tokens it dropped while
/// resynchronizing.
#[derive(Debug, PartialEq, Eq, PartialOrd, Ord)]
pub struct ErrorRecovery<L, T, LE, PE> {
    pub error: ParseError<L, T, LE, PE>,
    pub dropped_tokens: Vec<(L, T, L)>,
}

impl<Loc: Clone, Token: Clone, LError: Clone, PError: Clone> Clone for ParseError<
    Loc,
    Token,
    LError,
    PError,
> {
    /// A field-by-field copy; what each field's own `clone` returns is up
    /// to its type.
    fn clone(&self) -> Self {
        match self {
            ParseError::LexerError { error } => ParseError::LexerError { error: error.clone() },
            ParseError::UnrecognizedEof { location, expected } => ParseError::UnrecognizedEof {
                location: location.clone(),
                expected: expected.clone(),
            },
            ParseError::UnrecognizedToken { token, expected } => ParseError::UnrecognizedToken {
                token: (token.0.clone(), token.1.clone(), token.2.clone()),
                expected: expected.clone(),
            },
            ParseError::ExtraToken { token } => ParseError::ExtraToken {
                token: (token.0.clone(), token.1.clone(), token.2.clone()),
            },
            ParseError::User { error } => ParseError::User { error: error.clone() },
        }
    }
}

impl<L: Clone, T: Clone, LE: Clone, PE: Clone> Clone for ErrorRecovery<L, T, LE, PE> {
    /// A field-by-field copy; what each field's own `clone` returns is up
    /// to its type.
    fn clone(&self) -> Self {
        let mut dropped_tokens: Vec<(L, T, L)> = Vec::new();
        let mut i: usize = 0;
        while i < self.dropped_tokens.len()
            invariant
                0 <= i <= self.dropped_tokens@.len(),
            decreases self.dropped_tokens@.len() - i,
        {
            let entry = &self.dropped_tokens[i];
            dropped_tokens.push((entry.0.clone(), entry.1.clone(), entry.2.clone()));
            i = i + 1;
        }
        ErrorRecovery { error: self.error.clone(), dropped_tokens }
    }
}

impl<Loc, Token, LError, PError> ParseError<Loc, Token, LError, PError> {
    /// Applies the four given maps to the fields of their types, leaving
    /// the variant and all other fields unchanged.
    fn map_intern<LL, TT, LEE, PEE>(
        self,
        loc_op: impl Fn(Loc) -> LL,
        tok_op: impl Fn(Token) -> TT,
        lerr_op: impl Fn(LError) -> LEE,
        err_op: impl Fn(PError) -> PEE,
    ) -> (r: ParseError<LL, TT, LEE, PEE>)
        requires
            self matches ParseError::LexerError { error } ==> call_requires(lerr_op, (error,)),
            self matches ParseError::UnrecognizedEof { location, expected } ==> call_requires(
                loc_op,
                (location,),
            ),
            self matches ParseError::UnrecognizedToken { token, expected } ==> call_requires(
                loc_op,
                (token.0,),
            ) && call_requires(tok_op, (token.1,)) && call_requires(loc_op, (token.2,)),
            self matches ParseError::ExtraToken { token } ==> call_requires(loc_op, (token.0,))
                && call_requires(tok_op, (token.1,)) && call_requires(loc_op, (token.2,)),
            self matches ParseError::User { error } ==> call_requires(err_op, (error,)),
        ensures
            self matches ParseError::LexerError { error } ==> (r matches ParseError::LexerError {
                error: e2 } && call_ensures(lerr_op, (error,), e2)),
            self matches ParseError::UnrecognizedEof { location, expected } ==> (r
                matches ParseError::UnrecognizedEof { location: l2, expected: x2 } && call_ensures(
                loc_op,
                (location,),
                l2,
            ) && x2 == expected),
            self matches ParseError::UnrecognizedToken { token, expected } ==> (r
                matches ParseError::UnrecognizedToken { token: t2, expected: x2 } && call_ensures(
                loc_op,
                (token.0,),
                t2.0,
            ) && call_ensures(tok_op, (token.1,), t2.1) && call_ensures(loc_op, (token.2,), t2.2)
                && x2 == expected),
            self matches ParseError::ExtraToken { token } ==> (r matches ParseError::ExtraToken {
                token: t2 } && call_ensures(loc_op, (token.0,), t2.0) && call_ensures(
                tok_op,
                (token.1,),
                t2.1,
            ) && call_ensures(loc_op, (token.2,), t2.2)),
            self matches ParseError::User { error } ==> (r matches ParseError::User { error: e2 }
                && call_ensures(err_op, (error,), e2)),
    {
        match self {
            ParseError::LexerError { error } => ParseError::LexerError { error: lerr_op(error) },
            ParseError::UnrecognizedEof { location, expected } => ParseError::UnrecognizedEof {
                location: loc_op(location),
                expected,
            },
            ParseError::UnrecognizedToken { token, expected } => {
                let (s, t, e) = token;
                ParseError::UnrecognizedToken {
                    token: (loc_op(s), tok_op(t), loc_op(e)),
                    expected,
                }
            },
            ParseError::ExtraToken { token } => {
                let (s, t, e) = token;
                ParseError::ExtraToken { token: (loc_op(s), tok_op(t), loc_op(e)) }
            },
            ParseError::User { error } => ParseError::User { error: err_op(error) },
        }
    }

    /// Maps every location of the error through `op`.
    pub fn map_location<LL>(self, op: impl Fn(Loc) -> LL) -> (r: ParseError<
        LL,
        Token,
        LError,
        PError,
    >)
        requires
            self matches ParseError::UnrecognizedEof { location, expected } ==> call_requires(
                op,
                (location,),
            ),
            self matches ParseError::UnrecognizedToken { token, expected } ==> call_requires(
                op,
                (token.0,),
            ) && call_requires(op, (token.2,)),
            self matches ParseError::ExtraToken { token } ==> call_requires(op, (token.0,))
                && call_requires(op, (token.2,)),
        ensures
            self matches ParseError::LexerError { error } ==> r matches ParseError::LexerError {
                error: e2 } && e2 == error,
            self matches ParseError::UnrecognizedEof { location, expected } ==> (r
                matches ParseError::UnrecognizedEof { location: l2, expected: x2 } && call_ensures(
                op,
                (location,),
                l2,
            ) && x2 == expected),
            self matches ParseError::UnrecognizedToken { token, expected } ==> (r
                matches ParseError::UnrecognizedToken { token: t2, expected: x2 } && call_ensures(
                op,
                (token.0,),
                t2.0,
            ) && t2.1 == token.1 && call_ensures(op, (token.2,), t2.2) && x2 == expected),
            self matches ParseError::ExtraToken { token } ==> (r matches ParseError::ExtraToken {
                token: t2 } && call_ensures(op, (token.0,), t2.0) && t2.1 == token.1
                && call_ensures(op, (token.2,), t2.2)),
            self matches ParseError::User { error } ==> r matches ParseError::User { error: e2 }
                && e2 == error,
    {
        self.map_intern(op, |x: Token| -> (r: Token) ensures r == x { x }, |x: LError| ->
            (r: LError) ensures r == x { x }, |x: PError| -> (r: PError) ensures
            r == x { x })
    }

    /// Maps the unexpected token of the error through `op`.
    pub fn map_token<TT>(self, op: impl Fn(Token) -> TT) -> (r: ParseError<
        Loc,
        TT,
        LError,
        PError,
    >)
        requires
            self matches ParseError::UnrecognizedToken { token, expected } ==> call_requires(
                op,
                (token.1,),
            ),
            self matches ParseError::ExtraToken { token } ==> call_requires(op, (token.1,)),
        ensures
            self matches ParseError::LexerError { error } ==> r matches ParseError::LexerError {
                error: e2 } && e2 == error,
            self matches ParseError::UnrecognizedEof { location, expected } ==> (r
                matches ParseError::UnrecognizedEof { location: l2, expected: x2 } && l2 == location
                && x2 == expected),
            self matches ParseError::UnrecognizedToken { token, expected } ==> (r
                matches ParseError::UnrecognizedToken { token: t2, expected: x2 } && t2.0 == token.0
                && call_ensures(op, (token.1,), t2.1) && t2.2 == token.2 && x2 == expected),
            self matches ParseError::ExtraToken { token } ==> (r matches ParseError::ExtraToken {
                token: t2 } && t2.0 == token.0 && call_ensures(op, (token.1,), t2.1) && t2.2
                == token.2),
            self matches ParseError::User { error } ==> r matches ParseError::User { error: e2 }
                && e2 == error,
    {
        self.map_intern(|x: Loc| -> (r: Loc) ensures r == x { x }, op, |x: LError| -> (r:
            LError) ensures r == x { x }, |x: PError| -> (r: PError) ensures r
            == x { x })
    }

    /// Maps the lexer error of the error through `op`.
    pub fn map_lexer_error<LEE>(self, op: impl Fn(LError) -> LEE) -> (r: ParseError<
        Loc,
        Token,
        LEE,
        PError,
    >)
        requires
            self matches ParseError::LexerError { error } ==> call_requires(op, (error,)),
        ensures
            self matches ParseError::LexerError { error } ==> (r matches ParseError::LexerError {
                error: e2 } && call_ensures(op, (error,), e2)),
            self matches ParseError::UnrecognizedEof { location, expected } ==> (r
                matches ParseError::UnrecognizedEof { location: l2, expected: x2 } && l2 == location
                && x2 == expected),
            self matches ParseError::UnrecognizedToken { token, expected } ==> (r
                matches ParseError::UnrecognizedToken { token: t2, expected: x2 } && t2 == token
                && x2 == expected),
            self matches ParseError::ExtraToken { token } ==> (r matches ParseError::ExtraToken {
                token: t2 } && t2 == token),
            self matches ParseError::User { error } ==> r matches ParseError::User { error: e2 }
                && e2 == error,
    {
        self.map_intern(|x: Loc| -> (r: Loc) ensures r == x { x }, |x: Token| -> (r:
            Token) ensures r == x { x }, op, |x: PError| -> (r: PError) ensures r
            == x { x })
    }

    /// Maps the custom user error of the error through `op`.
    pub fn map_error<PEE>(self, op: impl Fn(PError) -> PEE) -> (r: ParseError<
        Loc,
        Token,
        LError,
        PEE,
    >)
        requires
            self matches ParseError::User { error } ==> call_requires(op, (error,)),
        ensures
            self matches ParseError::LexerError { error } ==> r matches ParseError::LexerError {
                error: e2 } && e2 == error,
            self matches ParseError::UnrecognizedEof { location, expected } ==> (r
                matches ParseError::UnrecognizedEof { location: l2, expected: x2 } && l2 == location
                && x2 == expected),
            self matches ParseError::UnrecognizedToken { token, expected } ==> (r
                matches ParseError::UnrecognizedToken { token: t2, expected: x2 } && t2 == token
                && x2 == expected),
            self matches ParseError::ExtraToken { token } ==> (r matches ParseError::ExtraToken {
                token: t2 } && t2 == token),
            self matches ParseError::User { error } ==> (r matches ParseError::User { error: e2 }
                && call_ensures(op, (error,), e2)),
    {
        self.map_intern(|x: Loc| -> (r: Loc) ensures r == x { x }, |x: Token| -> (r:
            Token) ensures r == x { x }, |x: LError| -> (r: LError) ensures r
            == x { x }, op)
    }
}

/// The separator printed before element `idx` of a list of `len` expected
/// tokens.
pub open spec fn spec_expected_sep(len: nat, idx: nat) -> Seq<char> {
    if idx == 0 {
        "Expected one of"@
    } else if idx < len - 1 {
        ","@
    } else {
        " or"@
    }
}

/// The text of the first `i` expected tokens, each preceded by its
/// separator and one space.
pub open spec fn spec_expected_parts(expected: Seq<String>, i: nat) -> Seq<char>
    decreases i,
{
    if i == 0 {
        Seq::empty()
    } else {
        spec_expected_parts(expected, (i - 1) as nat) + spec_expected_sep(
            expected.len(),
            (i - 1) as nat,
        ) + " "@ + expected[i - 1]@
    }
}

/// The full expected-token tail: nothing when the list is empty, else a
/// newline and the separated list.
pub open spec fn spec_fmt_expected(expected: Seq<String>) -> Seq<char> {
    if expected.len() == 0 {
        Seq::empty()
    } else {
        "\n"@ + spec_expected_parts(expected, expected.len())
    }
}

/// Formats a list of expected tokens: `Expected one of a, b or c`, on its
/// own line, or nothing when the list is empty.
#[verifier::loop_isolation(false)]
pub fn fmt_expected(expected: &Vec<String>) -> (r: String)
    ensures
        r@ == spec_fmt_expected(expected@),
{
    let mut out = String::new();
    if expected.len() == 0 {
        return out;
    }
    out.append("\n");
    let mut i: usize = 0;
    while i < expected.len()
        invariant
            0 <= i <= expected@.len(),
            expected@.len() > 0,
            out@ == "\n"@ + spec_expected_parts(expected@, i as nat),
        decreases expected@.len() - i,
    {
        if i == 0 {
            out.append("Expected one of");
        } else if i < expected.len() - 1 {
            out.append(",");
        } else {
            out.append(" or");
        }
        out.append(" ");
        out.append(expected[i].as_str());
        proof {
            assert(out@ =~= "\n"@ + spec_expected_parts(expected@, (i + 1) as nat));
        }
        i = i + 1;
    }
    out
}

/// The display text of an error whose pieces are already rendered.
pub open spec fn spec_parse_error_display(
    e: ParseError<String, String, String, String>,
) -> Seq<char> {
    match e {
        ParseError::User { error } => error@,
        ParseError::LexerError { error } => error@,
        ParseError::UnrecognizedEof { location, expected } => "Unrecognized EOF found at "@
            + location@ + spec_fmt_expected(expected@),
        ParseError::UnrecognizedToken { token, expected } => "Unrecognized token `"@ + token.1@
            + "` found at "@ + token.0@ + ":"@ + token.2@ + spec_fmt_expected(expected@),
        ParseError::ExtraToken { token } => "Extra token "@ + token.1@ + " found at "@ + token.0@
            + ":"@ + token.2@,
    }
}

impl ParseError<String, String, String, String> {
    /// Renders the error as the text a user of the parser is shown.
    pub fn display_string(&self) -> (r: String)
        ensures
            r@ == spec_parse_error_display(*self),
    {
        let mut out = String::new();
        match self {
            ParseError::User { error } => {
                out.append(error.as_str());
            },
            ParseError::LexerError { error } => {
                out.append(error.as_str());
            },
            ParseError::UnrecognizedEof { location, expected } => {
                out.append("Unrecognized EOF found at ");
                out.append(location.as_str());
                let tail = fmt_expected(expected);
                out.append(tail.as_str());
                proof {
                    assert(out@ =~= spec_parse_error_display(*self));
                }
            },
            ParseError::UnrecognizedToken { token, expected } => {
                out.append("Unrecognized token `");
                out.append(token.1.as_str());
                out.append("` found at ");
                out.append(token.0.as_str());
                out.append(":");
                out.append(token.2.as_str());
                let tail = fmt_expected(expected);
                out.append(tail.as_str());
                proof {
                    assert(out@ =~= spec_parse_error_display(*self));
                }
            },
            ParseError::ExtraToken { token } => {
                out.append("Extra token ");
                out.append(token.1.as_str());
                out.append(" found at ");
                out.append(token.0.as_str());
                out.append(":");
                out.append(token.2.as_str());
                proof {
                    assert(out@ =~= spec_parse_error_display(*self));
                }
            },
        }
        out
    }
}

} // verus!
