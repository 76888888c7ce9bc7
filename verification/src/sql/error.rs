//! What can be wrong with SQL text.

use vstd::prelude::*;
use vstd::string::*;

use crate::text;

verus! {

/// Why a text is no sequence of statements.
#[derive(Debug)]
pub enum ParseFailure {
    /// It is no sequence of tokens.
    Tokenizer(String),
    /// The tokens are no statements.
    Parser(String),
    /// It is nested too deeply.
    RecursionLimit,
    /// It holds words that cannot be read where they stand.
    Unreadable,
}

/// Why, and where, a text is no sequence of tokens.
#[derive(Debug)]
pub struct TokenFailure {
    pub message: String,
    pub line: u64,
    pub column: u64,
}

/// An error in SQL text.
#[derive(Debug)]
pub enum Error {
    Parse(ParseFailure),
    Tokenize(TokenFailure),
}

/// The text of a `ParseFailure`.
pub open spec fn parse_failure_text(e: ParseFailure) -> Seq<char> {
    "sql parser error: "@ + (match e {
        ParseFailure::Tokenizer(s) => s@,
        ParseFailure::Parser(s) => s@,
        ParseFailure::RecursionLimit => "recursion limit exceeded"@,
        ParseFailure::Unreadable => "unsupported use of DIV, CHANNEL or GRANTED"@,
    })
}

/// The text of a `TokenFailure`. A place in no line is not shown.
pub open spec fn token_failure_text(e: TokenFailure) -> Seq<char> {
    if e.line == 0 {
        e.message@
    } else {
        e.message@ + " at Line: "@ + text::nat_text(e.line as nat) + ", Column: "@
            + text::nat_text(e.column as nat)
    }
}

/// The text of an `Error`.
pub open spec fn error_text(e: Error) -> Seq<char> {
    match e {
        Error::Parse(f) => "Parse error: "@ + parse_failure_text(f),
        Error::Tokenize(f) => "Tokenize error: "@ + token_failure_text(f),
    }
}

impl ParseFailure {
    /// The text of the failure.
    pub fn to_string(&self) -> (r: String)
        ensures
            r@ == parse_failure_text(*self),
    {
        let mut out = "sql parser error: ".to_string();
        match self {
            ParseFailure::Tokenizer(s) => out.append(s.as_str()),
            ParseFailure::Parser(s) => out.append(s.as_str()),
            ParseFailure::RecursionLimit => out.append("recursion limit exceeded"),
            ParseFailure::Unreadable => {
                out.append("unsupported use of DIV, CHANNEL or GRANTED");
            },
        }
        out
    }
}

impl TokenFailure {
    /// The text of the failure.
    pub fn to_string(&self) -> (r: String)
        ensures
            r@ == token_failure_text(*self),
    {
        let mut out = self.message.clone();
        if self.line != 0 {
            out.append(" at Line: ");
            text::push_u64(&mut out, self.line);
            out.append(", Column: ");
            text::push_u64(&mut out, self.column);
        }
        out
    }
}

impl Error {
    /// The text of the error.
    pub fn to_string(&self) -> (r: String)
        ensures
            r@ == error_text(*self),
    {
        match self {
            Error::Parse(f) => {
                let mut out = "Parse error: ".to_string();
                out.append(f.to_string().as_str());
                out
            },
            Error::Tokenize(f) => {
                let mut out = "Tokenize error: ".to_string();
                out.append(f.to_string().as_str());
                out
            },
        }
    }
}

/// The text of an error names what failed and ends with the message; that of tokens ends
/// with the place, unless there is none.
pub proof fn error_texts_carry_the_message(s: String, line: u64, column: u64)
    ensures
        error_text(Error::Parse(ParseFailure::Parser(s))) == "Parse error: sql parser error: "@
            + s@,
        error_text(Error::Parse(ParseFailure::Tokenizer(s))) == "Parse error: sql parser error: "@
            + s@,
        error_text(Error::Parse(ParseFailure::RecursionLimit))
            == "Parse error: sql parser error: recursion limit exceeded"@,
        ({
            let e = Error::Tokenize(TokenFailure { message: s, line, column });
            error_text(e) == if line == 0 {
                "Tokenize error: "@ + s@
            } else {
                "Tokenize error: "@ + s@ + " at Line: "@ + text::int_text(line as int)
                    + ", Column: "@ + text::int_text(column as int)
            }
        }),
{
    reveal_strlit("Parse error: ");
    reveal_strlit("sql parser error: ");
    reveal_strlit("Parse error: sql parser error: ");
    reveal_strlit("recursion limit exceeded");
    reveal_strlit("Parse error: sql parser error: recursion limit exceeded");
    assert("Parse error: "@ + "sql parser error: "@ =~= "Parse error: sql parser error: "@);
    assert(error_text(Error::Parse(ParseFailure::Parser(s)))
        =~= "Parse error: sql parser error: "@ + s@);
    assert(error_text(Error::Parse(ParseFailure::Tokenizer(s)))
        =~= "Parse error: sql parser error: "@ + s@);
    assert(error_text(Error::Parse(ParseFailure::RecursionLimit))
        =~= "Parse error: sql parser error: recursion limit exceeded"@);
    let e = Error::Tokenize(TokenFailure { message: s, line, column });
    assert(error_text(e) =~= if line == 0 {
        "Tokenize error: "@ + s@
    } else {
        "Tokenize error: "@ + s@ + " at Line: "@ + text::int_text(line as int) + ", Column: "@
            + text::int_text(column as int)
    });
}

} // verus!
