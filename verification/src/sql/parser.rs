//! The statements of SQL text.

use vstd::prelude::*;
use vstd::string::*;

use crate::sql::ast::SqlStatement;
use crate::sql::error::{Error, ParseFailure};
use crate::sql::guard;
use crate::sql::guard::can_read;
use crate::sql::source;
use crate::text;

verus! {

/// The statements of an SQL text of the MySQL dialect, and for each a text of several
/// lines that shows its structure; or why the text has none.
pub uninterp spec fn read_sql(sql: Seq<char>) -> Result<
    (Seq<SqlStatement>, Seq<Seq<char>>),
    ParseFailure,
>;

/// The statements of an SQL text of the MySQL dialect with their outlines, or why it
/// has none. A text that the parser could not get past is refused.
pub open spec fn guarded_sql(sql: Seq<char>) -> Result<
    (Seq<SqlStatement>, Seq<Seq<char>>),
    ParseFailure,
> {
    if guard::reads_safely(sql) {
        read_sql(sql)
    } else {
        Err(ParseFailure::Unreadable)
    }
}

/// The statements of an SQL text of the MySQL dialect, or why it has none.
pub open spec fn parsed_sql(sql: Seq<char>) -> Result<Seq<SqlStatement>, ParseFailure> {
    match guarded_sql(sql) {
        Ok((statements, _)) => Ok(statements),
        Err(e) => Err(e),
    }
}

/// For each statement of an SQL text of the MySQL dialect a text of several lines
/// that shows its structure, or why it has none.
pub open spec fn outlined_sql(sql: Seq<char>) -> Result<Seq<Seq<char>>, ParseFailure> {
    match guarded_sql(sql) {
        Ok((_, shown)) => Ok(shown),
        Err(e) => Err(e),
    }
}

/// The statements of a text with their outlines.
fn read_guarded(sql: &str) -> (r: Result<(Vec<SqlStatement>, Vec<String>), ParseFailure>)
    ensures
        match r {
            Ok((v, shown)) => guarded_sql(sql@) == Ok::<
                (Seq<SqlStatement>, Seq<Seq<char>>),
                ParseFailure,
            >((v@, crate::model::views(shown@))),
            Err(e) => guarded_sql(sql@) == Err::<
                (Seq<SqlStatement>, Seq<Seq<char>>),
                ParseFailure,
            >(e),
        },
{
    if can_read(sql) {
        source::statements_of(sql)
    } else {
        Err(ParseFailure::Unreadable)
    }
}

/// A parser of SQL text of the MySQL dialect.
pub struct Parser;

impl Parser {
    /// The statements of a text.
    pub fn parse_sql(sql: &str) -> (r: Result<Vec<SqlStatement>, Error>)
        ensures
            match r {
                Ok(v) => parsed_sql(sql@) == Ok::<Seq<SqlStatement>, ParseFailure>(v@),
                Err(e) => e is Parse && parsed_sql(sql@) == Err::<
                    Seq<SqlStatement>,
                    ParseFailure,
                >(e->Parse_0),
            },
    {
        match read_guarded(sql) {
            Ok((v, _)) => Ok(v),
            Err(e) => Err(Error::Parse(e)),
        }
    }

    /// The one statement of a text; it is an error if there are none or several.
    pub fn parse_one(sql: &str) -> (r: Result<SqlStatement, Error>)
        ensures
            one_of(parsed_sql(sql@), r),
    {
        match read_guarded(sql) {
            Ok((v, _)) => only_statement(v),
            Err(e) => Err(Error::Parse(e)),
        }
    }

    /// For each statement of a text a text of several lines that shows its
    /// structure.
    pub fn outline(sql: &str) -> (r: Result<Vec<String>, Error>)
        ensures
            match r {
                Ok(v) => outlined_sql(sql@) == Ok::<Seq<Seq<char>>, ParseFailure>(
                    crate::model::views(v@),
                ),
                Err(e) => e is Parse && outlined_sql(sql@) == Err::<Seq<Seq<char>>, ParseFailure>(
                    e->Parse_0,
                ),
            },
    {
        match read_guarded(sql) {
            Ok((_, shown)) => Ok(shown),
            Err(e) => Err(Error::Parse(e)),
        }
    }
}

/// What is owed for the statements of a text where one is wanted.
pub open spec fn one_of(
    parsed: Result<Seq<SqlStatement>, ParseFailure>,
    r: Result<SqlStatement, Error>,
) -> bool {
    match parsed {
        Err(e) => r == Err::<SqlStatement, Error>(Error::Parse(e)),
        Ok(v) => if v.len() == 1 {
            r == Ok::<SqlStatement, Error>(v[0])
        } else {
            r matches Err(Error::Parse(ParseFailure::Parser(m))) && m@
                == "expected 1 statement, got "@ + text::nat_text(v.len())
        },
    }
}

/// The one statement of a sequence; it is an error if there are none or several.
pub fn only_statement(statements: Vec<SqlStatement>) -> (r: Result<SqlStatement, Error>)
    ensures
        one_of(Ok(statements@), r),
{
    let mut statements = statements;
    if statements.len() != 1 {
        let mut message = "expected 1 statement, got ".to_string();
        text::push_u64(&mut message, statements.len() as u64);
        return Err(Error::Parse(ParseFailure::Parser(message)));
    }
    Ok(statements.remove(0))
}

/// A text that must be one statement is refused where it is none or several; the message
/// tells how many it is.
pub proof fn only_one_statement_is_taken(v: Seq<SqlStatement>, r: Result<SqlStatement, Error>)
    requires
        one_of(Ok(v), r),
    ensures
        r is Ok <==> v.len() == 1,
        r matches Ok(s) ==> s == v[0],
        r matches Err(e) ==> crate::sql::error::error_text(e)
            == "Parse error: sql parser error: expected 1 statement, got "@ + text::int_text(
            v.len() as int,
        ),
{
    reveal_strlit("Parse error: ");
    reveal_strlit("sql parser error: ");
    reveal_strlit("expected 1 statement, got ");
    reveal_strlit("Parse error: sql parser error: expected 1 statement, got ");
    if v.len() != 1 {
        let m = text::nat_text(v.len());
        assert("Parse error: "@ + ("sql parser error: "@ + ("expected 1 statement, got "@ + m))
            =~= "Parse error: sql parser error: expected 1 statement, got "@ + m);
    }
}

} // verus!
