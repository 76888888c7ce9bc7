//! Which SQL texts can be handed to the parser of `sqlparser`. It panics where certain
//! words are not followed by what it takes for granted; texts with such words are
//! refused before it sees them.

use vstd::prelude::*;

use crate::sql::tokenizer;
use crate::sql::tokenizer::{SqlToken, Tokenizer};
use crate::text;
use crate::text::same_text;

verus! {

/// The tokens that are no white space.
pub open spec fn solid(tokens: Seq<SqlToken>) -> Seq<SqlToken>
    decreases tokens.len(),
{
    if tokens.len() == 0 {
        tokens
    } else {
        let before = solid(tokens.drop_last());
        if tokens.last().space {
            before
        } else {
            before.push(tokens.last())
        }
    }
}

/// The token at a place is a word without quotes that reads as given in upper case.
pub open spec fn reads(tokens: Seq<SqlToken>, i: int, word: Seq<char>) -> bool {
    0 <= i < tokens.len() && (tokens[i].word matches Some(w) && !w.quoted && text::uppercase(
        w.value@,
    ) == word)
}

/// The token at a place is the given mark.
pub open spec fn is_mark(tokens: Seq<SqlToken>, i: int, mark: Seq<char>) -> bool {
    0 <= i < tokens.len() && tokens[i].shown@ == mark
}

/// An expression ends before a place: the text does, or a mark or word follows that
/// goes on no expression.
pub open spec fn ends_expression(tokens: Seq<SqlToken>, i: int) -> bool {
    ||| i >= tokens.len()
    ||| is_mark(tokens, i, "SemiColon"@)
    ||| is_mark(tokens, i, "Comma"@)
    ||| is_mark(tokens, i, "RParen"@)
    ||| reads(tokens, i, "FROM"@)
    ||| reads(tokens, i, "WHERE"@)
    ||| reads(tokens, i, "ORDER"@)
    ||| reads(tokens, i, "LIMIT"@)
}

/// No expression ends before a place: a mark stands there behind which only a new name
/// or expression can begin.
pub open spec fn begins_anew(tokens: Seq<SqlToken>, i: int) -> bool {
    ||| is_mark(tokens, i - 1, "LParen"@)
    ||| is_mark(tokens, i - 1, "Comma"@)
    ||| is_mark(tokens, i - 1, "Period"@)
}

/// How many tokens may stand before a `DIV`, so that the depth to which the parser
/// goes is not used up there.
pub const MAX_BEFORE_DIV: usize = 40;

/// The parser gets past the token at a place. `DIV` as an operator must have a number
/// behind it that ends the expression; `FOR CHANNEL` and `GRANTED BY` are not read.
pub open spec fn is_safe_at(tokens: Seq<SqlToken>, i: int) -> bool {
    &&& reads(tokens, i, "DIV"@) ==> begins_anew(tokens, i) || (i <= MAX_BEFORE_DIV && i + 1
        < tokens.len() && tokens[i + 1].number is Some && ends_expression(tokens, i + 2))
    &&& reads(tokens, i, "CHANNEL"@) ==> !reads(tokens, i - 1, "FOR"@)
    &&& reads(tokens, i, "GRANTED"@) ==> !reads(tokens, i + 1, "BY"@)
}

/// The parser gets past all tokens.
pub open spec fn all_safe(tokens: Seq<SqlToken>) -> bool {
    forall|i: int| 0 <= i < tokens.len() ==> #[trigger] is_safe_at(tokens, i)
}

/// The parser can read the text. One without tokens it refuses by itself.
pub open spec fn reads_safely(sql: Seq<char>) -> bool {
    match tokenizer::tokenized_sql(sql) {
        Ok(tokens) => all_safe(solid(tokens)),
        Err(_) => true,
    }
}

/// The tokens at some places.
spec fn at_places(tokens: Seq<SqlToken>, places: Seq<usize>) -> Seq<SqlToken> {
    Seq::new(places.len(), |i: int| tokens[places[i] as int])
}

fn solid_places(tokens: &Vec<SqlToken>) -> (r: Vec<usize>)
    ensures
        forall|i: int| 0 <= i < r@.len() ==> (#[trigger] r@[i]) < tokens@.len(),
        at_places(tokens@, r@) == solid(tokens@),
{
    let mut out: Vec<usize> = Vec::new();
    let mut i: usize = 0;
    assert(at_places(tokens@, out@) =~= solid(tokens@.take(0)));
    while i < tokens.len()
        invariant
            i <= tokens.len(),
            forall|k: int| 0 <= k < out@.len() ==> (#[trigger] out@[k]) < tokens@.len(),
            at_places(tokens@, out@) == solid(tokens@.take(i as int)),
        decreases tokens.len() - i,
    {
        let ghost before = at_places(tokens@, out@);
        let ghost next = tokens@.take(i + 1);
        assert(next.drop_last() =~= tokens@.take(i as int));
        assert(next.last() == tokens@[i as int]);
        if !tokens[i].space {
            out.push(i);
            assert(at_places(tokens@, out@) =~= before.push(tokens@[i as int]));
        }
        i = i + 1;
    }
    assert(tokens@.take(tokens@.len() as int) =~= tokens@);
    out
}

fn is_word(token: &SqlToken, word: &str) -> (r: bool)
    ensures
        r == (token.word matches Some(w) && !w.quoted && text::uppercase(w.value@) == word@),
{
    match &token.word {
        Some(w) => !w.quoted && same_text(w.value.as_str().to_uppercase().as_str(), word),
        None => false,
    }
}

fn word_at(tokens: &Vec<SqlToken>, places: &Vec<usize>, i: usize, word: &str) -> (r: bool)
    requires
        forall|k: int| 0 <= k < places@.len() ==> (#[trigger] places@[k]) < tokens@.len(),
    ensures
        r == reads(at_places(tokens@, places@), i as int, word@),
{
    i < places.len() && is_word(&tokens[places[i]], word)
}

fn mark_at(tokens: &Vec<SqlToken>, places: &Vec<usize>, i: usize, mark: &str) -> (r: bool)
    requires
        forall|k: int| 0 <= k < places@.len() ==> (#[trigger] places@[k]) < tokens@.len(),
    ensures
        r == is_mark(at_places(tokens@, places@), i as int, mark@),
{
    i < places.len() && same_text(tokens[places[i]].shown.as_str(), mark)
}

fn expression_ends(tokens: &Vec<SqlToken>, places: &Vec<usize>, i: usize) -> (r: bool)
    requires
        forall|k: int| 0 <= k < places@.len() ==> (#[trigger] places@[k]) < tokens@.len(),
    ensures
        r == ends_expression(at_places(tokens@, places@), i as int),
{
    i >= places.len() || mark_at(tokens, places, i, "SemiColon") || mark_at(
        tokens,
        places,
        i,
        "Comma",
    ) || mark_at(tokens, places, i, "RParen") || word_at(tokens, places, i, "FROM") || word_at(
        tokens,
        places,
        i,
        "WHERE",
    ) || word_at(tokens, places, i, "ORDER") || word_at(tokens, places, i, "LIMIT")
}

fn safe_div(tokens: &Vec<SqlToken>, places: &Vec<usize>, i: usize) -> (r: bool)
    requires
        i < places@.len(),
        forall|k: int| 0 <= k < places@.len() ==> (#[trigger] places@[k]) < tokens@.len(),
    ensures
        ({
            let s = at_places(tokens@, places@);
            r == (begins_anew(s, i as int) || (i <= MAX_BEFORE_DIV && i + 1 < s.len()
                && s[i + 1].number is Some && ends_expression(s, i + 2)))
        }),
{
    if i > 0 && (mark_at(tokens, places, i - 1, "LParen") || mark_at(
        tokens,
        places,
        i - 1,
        "Comma",
    ) || mark_at(tokens, places, i - 1, "Period")) {
        return true;
    }
    if i > MAX_BEFORE_DIV || places.len() - i <= 1 {
        return false;
    }
    match &tokens[places[i + 1]].number {
        Some(_) => expression_ends(tokens, places, i + 2),
        None => false,
    }
}

fn safe_at(tokens: &Vec<SqlToken>, places: &Vec<usize>, i: usize) -> (r: bool)
    requires
        i < places@.len(),
        forall|k: int| 0 <= k < places@.len() ==> (#[trigger] places@[k]) < tokens@.len(),
    ensures
        r == is_safe_at(at_places(tokens@, places@), i as int),
{
    if word_at(tokens, places, i, "DIV") && !safe_div(tokens, places, i) {
        return false;
    }
    if word_at(tokens, places, i, "CHANNEL") && i > 0 && word_at(tokens, places, i - 1, "FOR") {
        return false;
    }
    !(word_at(tokens, places, i, "GRANTED") && places.len() - i > 1 && word_at(
        tokens,
        places,
        i + 1,
        "BY",
    ))
}

/// Whether the parser can read the text.
pub fn can_read(sql: &str) -> (r: bool)
    ensures
        r == reads_safely(sql@),
{
    let tokens = match Tokenizer::new(sql).tokenize() {
        Ok(tokens) => tokens,
        Err(_) => {
            return true;
        },
    };
    let places = solid_places(&tokens);
    let ghost s = at_places(tokens@, places@);
    let mut i: usize = 0;
    while i < places.len()
        invariant
            s == at_places(tokens@, places@),
            forall|k: int| 0 <= k < places@.len() ==> (#[trigger] places@[k]) < tokens@.len(),
            i <= places.len(),
            forall|k: int| 0 <= k < i ==> #[trigger] is_safe_at(s, k),
            tokenizer::tokenized_sql(sql@) == Ok::<
                Seq<SqlToken>,
                crate::sql::error::TokenFailure,
            >(tokens@),
            s == solid(tokens@),
        decreases places.len() - i,
    {
        if !safe_at(&tokens, &places, i) {
            assert(!is_safe_at(s, i as int));
            return false;
        }
        i = i + 1;
    }
    true
}

/// White space between tokens does not count.
pub proof fn white_space_does_not_count(tokens: Seq<SqlToken>)
    ensures
        solid(tokens) == tokens.filter(|t: SqlToken| !t.space),
    decreases tokens.len(),
{
    reveal(Seq::filter);
    if tokens.len() > 0 {
        white_space_does_not_count(tokens.drop_last());
    }
}

/// A text in which `DIV`, `CHANNEL` and `GRANTED` do not occur as words can be read. One
/// with `FOR CHANNEL` or `GRANTED BY` in it cannot, nor one that ends with `DIV` behind
/// a word.
pub proof fn plain_texts_can_be_read(tokens: Seq<SqlToken>)
    ensures
        (forall|i: int|
            0 <= i < tokens.len() ==> ((#[trigger] tokens[i]).word matches Some(w) ==> w.quoted
                || !(text::uppercase(w.value@) == "DIV"@ || text::uppercase(w.value@)
                == "CHANNEL"@ || text::uppercase(w.value@) == "GRANTED"@))) ==> all_safe(tokens),
        (exists|i: int|
            0 < i < tokens.len() && reads(tokens, i - 1, "FOR"@) && #[trigger] reads(
                tokens,
                i,
                "CHANNEL"@,
            )) ==> !all_safe(tokens),
        (exists|i: int|
            0 <= i < tokens.len() && #[trigger] reads(tokens, i, "GRANTED"@) && reads(
                tokens,
                i + 1,
                "BY"@,
            )) ==> !all_safe(tokens),
        tokens.len() == 1 && reads(tokens, 0, "DIV"@) ==> !all_safe(tokens),
{
    if exists|i: int|
        0 < i < tokens.len() && reads(tokens, i - 1, "FOR"@) && #[trigger] reads(
            tokens,
            i,
            "CHANNEL"@,
        ) {
        let i = choose|i: int|
            0 < i < tokens.len() && reads(tokens, i - 1, "FOR"@) && #[trigger] reads(
                tokens,
                i,
                "CHANNEL"@,
            );
        assert(!is_safe_at(tokens, i));
    }
    if exists|i: int|
        0 <= i < tokens.len() && #[trigger] reads(tokens, i, "GRANTED"@) && reads(
            tokens,
            i + 1,
            "BY"@,
        ) {
        let i = choose|i: int|
            0 <= i < tokens.len() && #[trigger] reads(tokens, i, "GRANTED"@) && reads(
                tokens,
                i + 1,
                "BY"@,
            );
        assert(!is_safe_at(tokens, i));
    }
    if tokens.len() == 1 && reads(tokens, 0, "DIV"@) {
        assert(!is_safe_at(tokens, 0));
    }
}

} // verus!
