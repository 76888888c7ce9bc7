//! The tokens of SQL text.

use vstd::prelude::*;

use crate::sql::error::{Error, TokenFailure};

verus! {

/// A word as it was written, and whether it stands in quotes.
#[derive(Debug)]
pub struct SqlWord {
    pub value: String,
    pub quoted: bool,
}

/// A token: a text that shows it; the number as it was written or the word, where it is
/// one; and whether it is white space.
#[derive(Debug)]
pub struct SqlToken {
    pub shown: String,
    pub number: Option<String>,
    pub word: Option<SqlWord>,
    pub space: bool,
}

/// The tokens of an SQL text of the MySQL dialect, or why it has none.
pub uninterp spec fn tokenized_sql(sql: Seq<char>) -> Result<Seq<SqlToken>, TokenFailure>;

/// `Tokenizer::tokenize` of `sqlparser` with its MySQL dialect: what it gives
/// depends on the text alone. Each token is kept by its debug text, a number by its
/// digits too, and a word by its letters.
#[verifier::external_body]
fn tokens_of(sql: &str) -> (r: Result<Vec<SqlToken>, TokenFailure>)
    ensures
        match r {
            Ok(v) => tokenized_sql(sql@) == Ok::<Seq<SqlToken>, TokenFailure>(v@),
            Err(e) => tokenized_sql(sql@) == Err::<Seq<SqlToken>, TokenFailure>(e),
        },
{
    sqlparser::tokenizer::Tokenizer::new(&sqlparser::dialect::MySqlDialect {}, sql)
        .tokenize()
        .map(|tokens| tokens.into_iter().map(|t| SqlToken {
            shown: format!("{t:?}"),
            space: matches!(t, sqlparser::tokenizer::Token::Whitespace(_)),
            word: match &t {
                sqlparser::tokenizer::Token::Word(w) => Some(
                    SqlWord { value: w.value.clone(), quoted: w.quote_style.is_some() }),
                _ => None,
            },
            number: match t { sqlparser::tokenizer::Token::Number(n, _) => Some(n), _ => None },
        }).collect())
        .map_err(|e| {
            TokenFailure { message: e.message, line: e.location.line, column: e.location.column }
        })
}

/// A tokenizer of SQL text of the MySQL dialect.
pub struct Tokenizer<'a> {
    sql: &'a str,
}

impl<'a> Tokenizer<'a> {
    /// The text that the tokenizer reads.
    pub closed spec fn source(&self) -> Seq<char> {
        self.sql@
    }

    /// A tokenizer of a text.
    pub fn new(sql: &'a str) -> (r: Self)
        ensures
            r.source() == sql@,
    {
        Tokenizer { sql }
    }

    /// The tokens of the text.
    pub fn tokenize(&self) -> (r: Result<Vec<SqlToken>, Error>)
        ensures
            match r {
                Ok(v) => tokenized_sql(self.source()) == Ok::<Seq<SqlToken>, TokenFailure>(v@),
                Err(e) => e is Tokenize && tokenized_sql(self.source()) == Err::<
                    Seq<SqlToken>,
                    TokenFailure,
                >(e->Tokenize_0),
            },
    {
        match tokens_of(self.sql) {
            Ok(v) => Ok(v),
            Err(e) => Err(Error::Tokenize(e)),
        }
    }
}

/// The numbers among the tokens, as they were written.
pub open spec fn numbers_of(tokens: Seq<SqlToken>) -> Seq<Seq<char>>
    decreases tokens.len(),
{
    if tokens.len() == 0 {
        Seq::empty()
    } else {
        let before = numbers_of(tokens.drop_last());
        match tokens.last().number {
            Some(n) => before.push(n@),
            None => before,
        }
    }
}

/// The numbers among the tokens, as they were written.
pub fn number_literals(tokens: &Vec<SqlToken>) -> (r: Vec<String>)
    ensures
        crate::model::views(r@) == numbers_of(tokens@),
{
    broadcast use crate::model::group_views;

    let mut out: Vec<String> = Vec::new();
    let mut i: usize = 0;
    while i < tokens.len()
        invariant
            i <= tokens.len(),
            crate::model::views(out@) == numbers_of(tokens@.take(i as int)),
        decreases tokens.len() - i,
    {
        assert(tokens@.take(i + 1).drop_last() =~= tokens@.take(i as int));
        if let Some(n) = &tokens[i].number {
            out.push(n.clone());
        }
        i = i + 1;
    }
    assert(tokens@.take(tokens@.len() as int) =~= tokens@);
    out
}

/// Every number is listed once, in the order in which the numbers stand.
pub proof fn numbers_are_listed_in_order(a: Seq<SqlToken>, b: Seq<SqlToken>, t: SqlToken)
    ensures
        numbers_of(a + b) == numbers_of(a) + numbers_of(b),
        numbers_of(Seq::empty()) == Seq::<Seq<char>>::empty(),
        numbers_of(seq![t]) == (match t.number {
            Some(n) => seq![n@],
            None => Seq::<Seq<char>>::empty(),
        }),
    decreases b.len(),
{
    reveal_with_fuel(numbers_of, 2);
    assert(seq![t].drop_last() =~= Seq::<SqlToken>::empty());
    assert(seq![t].last() == t);
    if b.len() == 0 {
        assert(a + b =~= a);
        assert(numbers_of(a) + numbers_of(b) =~= numbers_of(a));
    } else {
        numbers_are_listed_in_order(a, b.drop_last(), t);
        assert((a + b).drop_last() =~= a + b.drop_last());
        assert((a + b).last() == b.last());
        assert(numbers_of(a + b) =~= numbers_of(a) + numbers_of(b));
    }
}

} // verus!
