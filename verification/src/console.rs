//! The client's console: what it makes of the lines that are typed, and how it
//! shows results.

use vstd::prelude::*;
use vstd::utf8::*;

use crate::client;
use crate::model;
use crate::sql::ast::SqlStatement;
use crate::text;
use crate::text::{equal_ignoring_case, utf8_text};
use crate::words;

verus! {

broadcast use crate::model::group_views;

// ---------------------------------------------------------------------------
// Results
// ---------------------------------------------------------------------------

/// What a query gave.
#[derive(Debug)]
pub enum QueryResult {
    Affected { affected_rows: u64, last_insert_id: u64 },
    Error { code: u16, message: String },
    ResultSet { columns: Vec<Vec<u8>>, rows: Vec<Vec<Option<Vec<u8>>>> },
}

/// The text of bytes that are shown; a question mark where they are no text.
pub open spec fn shown(bytes: Seq<u8>) -> Seq<char> {
    if valid_utf8(bytes) {
        decode_utf8(bytes)
    } else {
        "?"@
    }
}

/// The text of a value.
pub open spec fn cell_text(cell: Option<Seq<u8>>) -> Seq<char> {
    match cell {
        Some(bytes) => shown(bytes),
        None => "NULL"@,
    }
}

/// How wide a value is, in bytes.
pub open spec fn cell_width(cell: Option<Seq<u8>>) -> nat {
    match cell {
        Some(bytes) => bytes.len(),
        None => 4,
    }
}

pub open spec fn wider(a: nat, b: nat) -> nat {
    if a < b {
        b
    } else {
        a
    }
}

/// The widths of columns after a row. Values behind the last column do not count.
pub open spec fn widened(widths: Seq<nat>, row: Seq<Option<Seq<u8>>>) -> Seq<nat> {
    Seq::new(
        widths.len(),
        |i: int|
            if i < row.len() {
                wider(widths[i], cell_width(row[i]))
            } else {
                widths[i]
            },
    )
}

/// The widths of the columns: that of the name or of the widest value.
pub open spec fn widths_of(columns: Seq<Seq<u8>>, rows: Seq<Seq<Option<Seq<u8>>>>) -> Seq<nat>
    decreases rows.len(),
{
    if rows.len() == 0 {
        Seq::new(columns.len(), |i: int| encode_utf8(shown(columns[i])).len())
    } else {
        widened(widths_of(columns, rows.drop_last()), rows.last())
    }
}

pub open spec fn repeated(c: char, n: nat) -> Seq<char> {
    Seq::new(n, |i: int| c)
}

/// The dashes of a line between rows, for the first columns.
pub open spec fn dashes(widths: Seq<nat>) -> Seq<char>
    decreases widths.len(),
{
    if widths.len() == 0 {
        Seq::empty()
    } else {
        dashes(widths.drop_last()) + "-"@ + repeated('-', widths.last()) + "-+"@
    }
}

/// A line between rows.
pub open spec fn border(widths: Seq<nat>) -> Seq<char> {
    "+"@ + dashes(widths) + "\n"@
}

/// A text with spaces behind it up to a width.
pub open spec fn filled_up(s: Seq<char>, width: nat) -> Seq<char> {
    s + repeated(
        ' ',
        if s.len() < width {
            (width - s.len()) as nat
        } else {
            0
        },
    )
}

/// The first `n` values of a row, each behind a space and in front of a bar.
pub open spec fn fields(texts: Seq<Seq<char>>, widths: Seq<nat>, n: int) -> Seq<char>
    decreases n,
{
    if n <= 0 {
        Seq::empty()
    } else {
        fields(texts, widths, n - 1) + " "@ + filled_up(texts[n - 1], widths[n - 1]) + " |"@
    }
}

/// A row. Values behind the last column are not shown.
pub open spec fn line_of(texts: Seq<Seq<char>>, widths: Seq<nat>) -> Seq<char> {
    let n = if texts.len() < widths.len() {
        texts.len()
    } else {
        widths.len()
    };
    "|"@ + fields(texts, widths, n as int) + "\n"@
}

pub open spec fn row_texts(row: Seq<Option<Seq<u8>>>) -> Seq<Seq<char>> {
    Seq::new(row.len(), |i: int| cell_text(row[i]))
}

pub open spec fn name_texts(columns: Seq<Seq<u8>>) -> Seq<Seq<char>> {
    Seq::new(columns.len(), |i: int| shown(columns[i]))
}

/// The rows, one line each.
pub open spec fn lines_of(rows: Seq<Seq<Option<Seq<u8>>>>, widths: Seq<nat>) -> Seq<char>
    decreases rows.len(),
{
    if rows.len() == 0 {
        Seq::empty()
    } else {
        lines_of(rows.drop_last(), widths) + line_of(row_texts(rows.last()), widths)
    }
}

/// A result set as a table, and how many rows it has.
pub open spec fn table_text(columns: Seq<Seq<u8>>, rows: Seq<Seq<Option<Seq<u8>>>>) -> Seq<char> {
    let widths = widths_of(columns, rows);
    border(widths) + line_of(name_texts(columns), widths) + border(widths) + lines_of(rows, widths)
        + border(widths) + text::nat_text(rows.len()) + (if rows.len() == 1 {
        " row in set\n"@
    } else {
        " rows in set\n"@
    })
}

/// What rows stand for.
pub open spec fn row_cells(rows: Seq<Vec<Option<Vec<u8>>>>) -> Seq<Seq<Option<Seq<u8>>>> {
    Seq::new(rows.len(), |i: int| client::cells(rows[i]@))
}

/// The text that shows what a query gave.
pub open spec fn result_text(r: QueryResult) -> Seq<char> {
    match r {
        QueryResult::Affected { affected_rows, last_insert_id } => "Query OK, "@ + text::nat_text(
            affected_rows as nat,
        ) + " row(s) affected (last insert id: "@ + text::nat_text(last_insert_id as nat)
            + ")\n"@,
        QueryResult::Error { code, message } => "ERROR "@ + text::nat_text(code as nat) + ": "@
            + message@ + "\n"@,
        QueryResult::ResultSet { columns, rows } => table_text(
            model::views(columns@),
            row_cells(rows@),
        ),
    }
}

fn show(bytes: &Vec<u8>) -> (r: String)
    ensures
        r@ == shown(bytes@),
{
    match utf8_text(bytes.as_slice()) {
        Ok(s) => s,
        Err(_) => "?".to_string(),
    }
}

/// What widths stand for.
pub open spec fn nats(widths: Seq<usize>) -> Seq<nat> {
    Seq::new(widths.len(), |i: int| widths[i] as nat)
}

fn measure(columns: &Vec<Vec<u8>>, rows: &Vec<Vec<Option<Vec<u8>>>>) -> (r: Vec<usize>)
    ensures
        nats(r@) == widths_of(model::views(columns@), row_cells(rows@)),
{
    let ghost cols = model::views(columns@);
    let ghost all = row_cells(rows@);
    let ghost none = Seq::<Seq<Option<Seq<u8>>>>::empty();
    let mut widths: Vec<usize> = Vec::new();
    let mut i: usize = 0;
    while i < columns.len()
        invariant
            cols == model::views(columns@),
            none == Seq::<Seq<Option<Seq<u8>>>>::empty(),
            i <= columns.len(),
            nats(widths@) == widths_of(cols, none).take(i as int),
        decreases columns.len() - i,
    {
        let ghost before = nats(widths@);
        let name = show(&columns[i]);
        widths.push(name.as_str().as_bytes().len());
        assert(nats(widths@) =~= before.push(encode_utf8(shown(cols[i as int])).len()));
        i = i + 1;
        assert(nats(widths@) =~= widths_of(cols, none).take(i as int));
    }
    assert(widths_of(cols, none).take(cols.len() as int) =~= widths_of(cols, none));
    let mut k: usize = 0;
    assert(all.take(0) =~= none);
    while k < rows.len()
        invariant
            cols == model::views(columns@),
            all == row_cells(rows@),
            k <= rows.len(),
            nats(widths@) == widths_of(cols, all.take(k as int)),
        decreases rows.len() - k,
    {
        let ghost next = all.take(k + 1);
        let ghost start = nats(widths@);
        let ghost row = client::cells(rows@[k as int]@);
        proof {
            assert(next.drop_last() =~= all.take(k as int));
            assert(next.last() == row);
        }
        let mut j: usize = 0;
        while j < widths.len() && j < rows[k].len()
            invariant
                k < rows.len(),
                row == client::cells(rows@[k as int]@),
                start.len() == widths.len(),
                j <= widths.len(),
                j <= rows@[k as int]@.len(),
                forall|m: int| 0 <= m < j ==> nats(widths@)[m] == #[trigger] widened(start, row)[m],
                forall|m: int| j <= m < widths.len() ==> nats(widths@)[m] == #[trigger] start[m],
            decreases widths.len() - j,
        {
            let len: usize = match &rows[k][j] {
                Some(bytes) => bytes.len(),
                None => 4,
            };
            assert(row[j as int] == model::view_opt(rows@[k as int]@[j as int]));
            assert(nats(widths@)[j as int] == start[j as int]);
            let ghost before = widths@;
            if len > widths[j] {
                widths.set(j, len);
            }
            j = j + 1;
            assert forall|m: int| 0 <= m < j implies nats(widths@)[m] == #[trigger] widened(
                start,
                row,
            )[m] by {
                if m < j - 1 {
                    assert(nats(before)[m] == widened(start, row)[m]);
                }
            }
            assert forall|m: int| j <= m < widths.len() implies nats(widths@)[m]
                == #[trigger] start[m] by {
                assert(nats(before)[m] == start[m]);
            }
        }
        assert(nats(widths@) =~= widened(start, row));
        k = k + 1;
    }
    assert(all.take(all.len() as int) =~= all);
    widths
}

fn push_repeated(out: &mut String, c: char, n: usize)
    ensures
        final(out)@ == old(out)@ + repeated(c, n as nat),
{
    let mut i: usize = 0;
    assert(out@ + repeated(c, 0) =~= out@);
    while i < n
        invariant
            i <= n,
            out@ == old(out)@ + repeated(c, i as nat),
        decreases n - i,
    {
        out.push(c);
        i = i + 1;
        assert(out@ =~= old(out)@ + repeated(c, i as nat));
    }
}

fn push_border(out: &mut String, widths: &Vec<usize>)
    ensures
        final(out)@ == old(out)@ + border(nats(widths@)),
{
    let ghost w = nats(widths@);
    out.append("+");
    let mut i: usize = 0;
    assert(out@ =~= old(out)@ + ("+"@ + dashes(w.take(0))));
    while i < widths.len()
        invariant
            w == nats(widths@),
            i <= widths.len(),
            out@ == old(out)@ + ("+"@ + dashes(w.take(i as int))),
        decreases widths.len() - i,
    {
        let ghost next = w.take(i + 1);
        proof {
            assert(next.drop_last() =~= w.take(i as int));
            assert(next.last() == widths@[i as int] as nat);
        }
        out.append("-");
        push_repeated(out, '-', widths[i]);
        out.append("-+");
        assert(out@ =~= old(out)@ + ("+"@ + dashes(next)));
        i = i + 1;
    }
    assert(w.take(w.len() as int) =~= w);
    out.append("\n");
    assert(out@ =~= old(out)@ + border(w));
}

fn push_line(out: &mut String, texts: &Vec<String>, widths: &Vec<usize>)
    ensures
        final(out)@ == old(out)@ + line_of(model::views(texts@), nats(widths@)),
{
    let ghost t = model::views(texts@);
    let ghost w = nats(widths@);
    out.append("|");
    let mut i: usize = 0;
    assert(out@ =~= old(out)@ + ("|"@ + fields(t, w, 0)));
    while i < texts.len() && i < widths.len()
        invariant
            t == model::views(texts@),
            w == nats(widths@),
            i <= texts.len(),
            i <= widths.len(),
            out@ == old(out)@ + ("|"@ + fields(t, w, i as int)),
        decreases texts.len() - i,
    {
        let count: usize = text::chars_of(texts[i].as_str()).len();
        out.append(" ");
        out.append(texts[i].as_str());
        if count < widths[i] {
            push_repeated(out, ' ', widths[i] - count);
        } else {
            assert(out@ + repeated(' ', 0) =~= out@);
        }
        out.append(" |");
        assert(out@ =~= old(out)@ + ("|"@ + fields(t, w, i + 1)));
        i = i + 1;
    }
    out.append("\n");
    assert(out@ =~= old(out)@ + line_of(t, w));
}

fn texts_of_row(row: &Vec<Option<Vec<u8>>>) -> (r: Vec<String>)
    ensures
        model::views(r@) == row_texts(client::cells(row@)),
{
    let ghost want = row_texts(client::cells(row@));
    let mut out: Vec<String> = Vec::new();
    let mut i: usize = 0;
    while i < row.len()
        invariant
            want == row_texts(client::cells(row@)),
            i <= row.len(),
            model::views(out@) == want.take(i as int),
        decreases row.len() - i,
    {
        match &row[i] {
            Some(bytes) => out.push(show(bytes)),
            None => out.push("NULL".to_string()),
        }
        i = i + 1;
        assert(model::views(out@) =~= want.take(i as int));
    }
    assert(want.take(want.len() as int) =~= want);
    out
}

fn texts_of_names(columns: &Vec<Vec<u8>>) -> (r: Vec<String>)
    ensures
        model::views(r@) == name_texts(model::views(columns@)),
{
    let ghost want = name_texts(model::views(columns@));
    let mut out: Vec<String> = Vec::new();
    let mut i: usize = 0;
    while i < columns.len()
        invariant
            want == name_texts(model::views(columns@)),
            i <= columns.len(),
            model::views(out@) == want.take(i as int),
        decreases columns.len() - i,
    {
        out.push(show(&columns[i]));
        i = i + 1;
        assert(model::views(out@) =~= want.take(i as int));
    }
    assert(want.take(want.len() as int) =~= want);
    out
}

fn push_lines(out: &mut String, rows: &Vec<Vec<Option<Vec<u8>>>>, widths: &Vec<usize>)
    ensures
        final(out)@ == old(out)@ + lines_of(row_cells(rows@), nats(widths@)),
{
    let ghost all = row_cells(rows@);
    let ghost w = nats(widths@);
    let mut i: usize = 0;
    assert(out@ + lines_of(all.take(0), w) =~= out@);
    while i < rows.len()
        invariant
            all == row_cells(rows@),
            w == nats(widths@),
            i <= rows.len(),
            out@ == old(out)@ + lines_of(all.take(i as int), w),
        decreases rows.len() - i,
    {
        let ghost next = all.take(i + 1);
        proof {
            assert(next.drop_last() =~= all.take(i as int));
            assert(next.last() == client::cells(rows@[i as int]@));
        }
        push_line(out, &texts_of_row(&rows[i]), widths);
        assert(out@ =~= old(out)@ + lines_of(next, w));
        i = i + 1;
    }
    assert(all.take(all.len() as int) =~= all);
}

/// The text that shows what a query gave.
pub fn format_result(result: &QueryResult) -> (r: String)
    ensures
        r@ == result_text(*result),
{
    match result {
        QueryResult::Affected { affected_rows, last_insert_id } => {
            let mut out = "Query OK, ".to_string();
            text::push_u64(&mut out, *affected_rows);
            out.append(" row(s) affected (last insert id: ");
            text::push_u64(&mut out, *last_insert_id);
            out.append(")\n");
            out
        },
        QueryResult::Error { code, message } => {
            let mut out = "ERROR ".to_string();
            text::push_u64(&mut out, *code as u64);
            out.append(": ");
            out.append(message.as_str());
            out.append("\n");
            out
        },
        QueryResult::ResultSet { columns, rows } => {
            let widths = measure(columns, rows);
            let mut out = String::new();
            push_border(&mut out, &widths);
            push_line(&mut out, &texts_of_names(columns), &widths);
            push_border(&mut out, &widths);
            push_lines(&mut out, rows, &widths);
            push_border(&mut out, &widths);
            text::push_u64(&mut out, rows.len() as u64);
            if rows.len() == 1 {
                out.append(" row in set\n");
            } else {
                out.append(" rows in set\n");
            }
            assert(out@ =~= table_text(model::views(columns@), row_cells(rows@)));
            out
        },
    }
}

// ---------------------------------------------------------------------------
// Lines
// ---------------------------------------------------------------------------

/// The state of the console: who is connected, the database in use, and the lines
/// of a statement that is not complete yet.
#[derive(Debug)]
pub struct Console {
    pub user: String,
    pub database: Option<String>,
    pub buffer: String,
}

/// What a `Console` stands for.
#[verifier::ext_equal]
pub struct ConsoleV {
    pub user: Seq<char>,
    pub database: Option<Seq<char>>,
    pub buffer: Seq<char>,
}

impl View for Console {
    type V = ConsoleV;

    open spec fn view(&self) -> ConsoleV {
        ConsoleV {
            user: self.user@,
            database: model::view_opt(self.database),
            buffer: self.buffer@,
        }
    }
}

/// What a line asks for.
#[derive(Debug)]
pub enum LineAction {
    Quit,
    /// Run the statements of a file.
    Source(String),
    /// Show the tables of the database with their columns.
    Schema,
    /// Run a statement.
    Run(String),
    /// Read on.
    Wait,
}

/// What a `LineAction` stands for.
#[verifier::ext_equal]
pub enum ActionV {
    Quit,
    Source(Seq<char>),
    Schema,
    Run(Seq<char>),
    Wait,
}

impl View for LineAction {
    type V = ActionV;

    open spec fn view(&self) -> ActionV {
        match self {
            LineAction::Quit => ActionV::Quit,
            LineAction::Source(path) => ActionV::Source(path@),
            LineAction::Schema => ActionV::Schema,
            LineAction::Run(sql) => ActionV::Run(sql@),
            LineAction::Wait => ActionV::Wait,
        }
    }
}

/// The text in front of the next line: the user and the database in use, or an
/// arrow within a statement.
pub open spec fn prompt_text(c: ConsoleV) -> Seq<char> {
    if c.buffer.len() > 0 {
        "    -> "@
    } else {
        match c.database {
            Some(db) => "srrdb ("@ + c.user + "@"@ + db + ")> "@,
            None => "srrdb ("@ + c.user + ")> "@,
        }
    }
}

pub open spec fn asks_to_quit(line: Seq<char>) -> bool {
    text::same_name(line, "exit"@) || text::same_name(line, "quit"@) || text::same_name(
        line,
        "\\q"@,
    )
}

/// The path of a file, as it is typed: without a semicolon and quotes around it.
pub open spec fn path_typed(s: Seq<char>) -> Seq<char> {
    words::trimmed_of(words::trimmed_of(words::trimmed_end_of(words::trimmed(s), ';'), '"'), '\'')
}

/// What a line asks for, and the lines that are kept. A statement is complete when a
/// line ends with a semicolon.
pub open spec fn line_read(buffer: Seq<char>, line: Seq<char>) -> (ActionV, Seq<char>) {
    let t = words::trimmed(line);
    if asks_to_quit(t) {
        (ActionV::Quit, buffer)
    } else {
        match words::behind_front(t, "source "@) {
            Some(path) => (ActionV::Source(path_typed(path)), Seq::empty()),
            None => if buffer.len() == 0 && text::same_name(t, "schema"@) {
                (ActionV::Schema, buffer)
            } else if t.len() == 0 {
                (ActionV::Wait, buffer)
            } else {
                let all = buffer + t + " "@;
                if t.last() == ';' {
                    (ActionV::Run(words::trimmed(all)), Seq::empty())
                } else {
                    (ActionV::Wait, all)
                }
            },
        }
    }
}

impl Console {
    /// A console at its start.
    pub fn new(user: &str) -> (r: Self)
        ensures
            r@ == (ConsoleV { user: user@, database: None, buffer: Seq::empty() }),
    {
        let r = Console { user: user.to_string(), database: None, buffer: String::new() };
        assert(r@.buffer =~= Seq::<char>::empty());
        r
    }

    /// The text in front of the next line.
    pub fn prompt(&self) -> (r: String)
        ensures
            r@ == prompt_text(self@),
    {
        if !words::is_empty(self.buffer.as_str()) {
            return "    -> ".to_string();
        }
        let mut out = "srrdb (".to_string();
        out.append(self.user.as_str());
        if let Some(db) = &self.database {
            out.append("@");
            out.append(db.as_str());
        }
        out.append(")> ");
        out
    }

    /// Takes a line, and decides what it asks for.
    pub fn feed(&mut self, line: &str) -> (r: LineAction)
        ensures
            ({
                let (action, buffer) = line_read(old(self)@.buffer, line@);
                r@ == action && final(self)@ == (ConsoleV { buffer, ..old(self)@ })
            }),
    {
        let t = words::trim(line);
        if equal_ignoring_case(t.as_str(), "exit") || equal_ignoring_case(t.as_str(), "quit")
            || equal_ignoring_case(t.as_str(), "\\q") {
            return LineAction::Quit;
        }
        if let Some(path) = words::strip_front(t.as_str(), "source ") {
            self.buffer = String::new();
            assert(self.buffer@ =~= Seq::<char>::empty());
            let plain = words::trim(path.as_str());
            let whole = words::trim_end_of(plain.as_str(), ';');
            let inner = words::trim_of(whole.as_str(), '"');
            return LineAction::Source(words::trim_of(inner.as_str(), '\''));
        }
        if words::is_empty(self.buffer.as_str()) && equal_ignoring_case(t.as_str(), "schema") {
            return LineAction::Schema;
        }
        if words::is_empty(t.as_str()) {
            return LineAction::Wait;
        }
        self.buffer.append(t.as_str());
        self.buffer.append(" ");
        if words::ends_with(t.as_str(), ';') {
            let sql = words::trim(self.buffer.as_str());
            self.buffer = String::new();
            assert(self.buffer@ =~= Seq::<char>::empty());
            LineAction::Run(sql)
        } else {
            LineAction::Wait
        }
    }

    /// Takes note of the database that statements switch to.
    pub fn note_statements(&mut self, statements: &Vec<SqlStatement>)
        ensures
            final(self)@ == (ConsoleV {
                database: match used_database(statements@) {
                    Some(db) => Some(db),
                    None => old(self)@.database,
                },
                ..old(self)@
            }),
    {
        let mut i: usize = 0;
        proof {
            assert(statements@.take(0) =~= Seq::<SqlStatement>::empty());
        }
        while i < statements.len()
            invariant
                i <= statements.len(),
                self@ == (ConsoleV {
                    database: match used_database(statements@.take(i as int)) {
                        Some(db) => Some(db),
                        None => old(self)@.database,
                    },
                    ..old(self)@
                }),
            decreases statements.len() - i,
        {
            let ghost next = statements@.take(i + 1);
            proof {
                assert(next.drop_last() =~= statements@.take(i as int));
                assert(next.last() == statements@[i as int]);
            }
            if let SqlStatement::Use(Some(path)) = &statements[i] {
                self.database = Some(path.to_string());
            }
            i = i + 1;
        }
        assert(statements@.take(statements@.len() as int) =~= statements@);
    }
}

/// The database that statements switch to, if they switch.
pub open spec fn used_database(statements: Seq<SqlStatement>) -> Option<Seq<char>>
    decreases statements.len(),
{
    if statements.len() == 0 {
        None
    } else {
        match statements.last() {
            SqlStatement::Use(Some(path)) => Some(crate::sql::ast::path_text(path)),
            _ => used_database(statements.drop_last()),
        }
    }
}

/// The statements of a script: what stands between its semicolons, without those
/// parts that are empty.
pub open spec fn statements_between(list: Seq<Seq<char>>) -> Seq<Seq<char>>
    decreases list.len(),
{
    if list.len() == 0 {
        Seq::empty()
    } else {
        let before = statements_between(list.drop_last());
        let s = words::trimmed(list.last());
        if s.len() == 0 {
            before
        } else {
            before.push(s)
        }
    }
}

/// The statements of a script.
pub fn script_statements(content: &str) -> (r: Vec<String>)
    ensures
        model::views(r@) == statements_between(words::parts(content@, ';')),
{
    let list = words::split(content, ';');
    let ghost v = model::views(list@);
    let mut out: Vec<String> = Vec::new();
    let mut i: usize = 0;
    while i < list.len()
        invariant
            v == model::views(list@),
            i <= list.len(),
            model::views(out@) == statements_between(v.take(i as int)),
        decreases list.len() - i,
    {
        let ghost next = v.take(i + 1);
        proof {
            assert(next.drop_last() =~= v.take(i as int));
            assert(next.last() == list@[i as int]@);
        }
        let s = words::trim(list[i].as_str());
        if !words::is_empty(s.as_str()) {
            out.push(s);
        }
        i = i + 1;
    }
    assert(v.take(v.len() as int) =~= v);
    out
}

/// The texts of the first column of a result set; none where it is no result set.
pub open spec fn first_texts(rows: Seq<Seq<Option<Seq<u8>>>>) -> Seq<Seq<char>>
    decreases rows.len(),
{
    if rows.len() == 0 {
        Seq::empty()
    } else {
        let before = first_texts(rows.drop_last());
        if rows.last().len() == 0 {
            before
        } else {
            before.push(cell_text(rows.last()[0]))
        }
    }
}

/// The names of tables that a result set lists.
pub fn listed_tables(result: &QueryResult) -> (r: Vec<String>)
    ensures
        model::views(r@) == tables_listed(*result),
{
    let mut out: Vec<String> = Vec::new();
    if let QueryResult::ResultSet { columns, rows } = result {
        let ghost all = row_cells(rows@);
        let mut i: usize = 0;
        assert(all.take(0) =~= Seq::<Seq<Option<Seq<u8>>>>::empty());
        while i < rows.len()
            invariant
                all == row_cells(rows@),
                i <= rows.len(),
                model::views(out@) == first_texts(all.take(i as int)),
            decreases rows.len() - i,
        {
            let ghost next = all.take(i + 1);
            proof {
                assert(next.drop_last() =~= all.take(i as int));
                assert(next.last() == client::cells(rows@[i as int]@));
            }
            if rows[i].len() > 0 {
                match &rows[i][0] {
                    Some(bytes) => out.push(show(bytes)),
                    None => out.push("NULL".to_string()),
                }
            }
            i = i + 1;
        }
        assert(all.take(all.len() as int) =~= all);
    }
    out
}

/// The statement that describes a table.
pub fn describe_statement(table: &str) -> (r: String)
    ensures
        r@ == "DESCRIBE "@ + table@,
{
    let mut out = "DESCRIBE ".to_string();
    out.append(table);
    out
}

/// The names of tables that a result lists: the texts of the first column of a result
/// set.
pub open spec fn tables_listed(result: QueryResult) -> Seq<Seq<char>> {
    match result {
        QueryResult::ResultSet { columns, rows } => first_texts(row_cells(rows@)),
        _ => Seq::empty(),
    }
}

/// The statements that show the schema: at first the one that lists the tables, and
/// once that gave a result one for each table that it lists, in their order.
pub open spec fn schema_statements(listed: Option<QueryResult>) -> Seq<Seq<char>> {
    match listed {
        None => seq!["SHOW TABLES"@],
        Some(result) => Seq::new(
            tables_listed(result).len(),
            |i: int| "DESCRIBE "@ + tables_listed(result)[i],
        ),
    }
}

/// The statements that show the schema: at first the one that lists the tables, and
/// once that gave a result one for each table that it lists, in their order.
pub fn schema_queries(listed: &Option<QueryResult>) -> (r: Vec<String>)
    ensures
        model::views(r@) == schema_statements(*listed),
{
    let mut out: Vec<String> = Vec::new();
    match listed {
        None => {
            out.push("SHOW TABLES".to_string());
            assert(model::views(out@) =~= schema_statements(*listed));
        },
        Some(result) => {
            let tables = listed_tables(result);
            let mut i: usize = 0;
            while i < tables.len()
                invariant
                    *listed == Some(*result),
                    model::views(tables@) == tables_listed(*result),
                    i <= tables.len(),
                    model::views(out@) == schema_statements(*listed).take(i as int),
                decreases tables.len() - i,
            {
                out.push(describe_statement(tables[i].as_str()));
                i = i + 1;
                assert(model::views(out@) =~= schema_statements(*listed).take(i as int));
            }
            assert(model::views(out@) =~= schema_statements(*listed));
        },
    }
    out
}

/// The line above the description of a table: its name in upper case between dashes.
pub fn schema_heading(table: &str) -> (r: String)
    ensures
        r@ == "\n\u{2500}\u{2500} "@ + text::uppercase(table@) + " \u{2500}\u{2500}\n"@,
{
    let mut out = "\n\u{2500}\u{2500} ".to_string();
    out.append(table.to_uppercase().as_str());
    out.append(" \u{2500}\u{2500}\n");
    out
}

// ---------------------------------------------------------------------------
// What holds of lines
// ---------------------------------------------------------------------------

/// What is kept after some lines.
pub open spec fn kept_after(lines: Seq<Seq<char>>) -> Seq<char>
    decreases lines.len(),
{
    if lines.len() == 0 {
        Seq::empty()
    } else {
        line_read(kept_after(lines.drop_last()), lines.last()).1
    }
}

/// A line is part of a statement: it is no word of the console's own.
pub open spec fn is_of_statement(line: Seq<char>) -> bool {
    &&& words::is_plain_line(line)
    &&& !text::same_name(line, "exit"@)
    &&& !text::same_name(line, "quit"@)
    &&& !text::same_name(line, "\\q"@)
    &&& !text::same_name(line, "schema"@)
    &&& !text::has_prefix(line, "source "@)
}

/// Lines belong to one statement: only the last may end with a semicolon.
pub open spec fn go_on(lines: Seq<Seq<char>>) -> bool {
    forall|i: int|
        0 <= i < lines.len() ==> is_of_statement(#[trigger] lines[i]) && (i < lines.len() - 1
            ==> lines[i].last() != ';')
}

proof fn lemma_kept(lines: Seq<Seq<char>>)
    requires
        lines.len() > 0,
        go_on(lines),
        lines.last().last() != ';',
    ensures
        kept_after(lines) == text::joined(lines, " "@) + " "@,
    decreases lines.len(),
{
    let before = lines.drop_last();
    let last = lines.last();
    assert(is_of_statement(lines[lines.len() - 1]));
    words::trimmed_text_stays(last);
    if before.len() > 0 {
        assert(go_on(before)) by {
            assert forall|i: int| 0 <= i < before.len() implies is_of_statement(
                #[trigger] before[i],
            ) && (i < before.len() - 1 ==> before[i].last() != ';') by {
                assert(before[i] == lines[i]);
            }
        }
        assert(before.last() == lines[lines.len() - 2]);
        lemma_kept(before);
        assert(kept_after(lines) =~= text::joined(lines, " "@) + " "@);
    } else {
        reveal_with_fuel(kept_after, 2);
        assert(kept_after(before) == Seq::<char>::empty());
        assert(Seq::<char>::empty() + last + " "@ =~= last + " "@);
        assert(lines[0] == last);
    }
}

/// A statement that is typed in several lines is run when a line ends with a semicolon, as
/// its lines with spaces between them, and after it nothing is kept.
pub proof fn lines_make_a_statement(lines: Seq<Seq<char>>)
    requires
        lines.len() > 0,
        go_on(lines),
        lines.last().last() == ';',
        text::white_space(' '),
    ensures
        line_read(kept_after(lines.drop_last()), lines.last()) == (
            ActionV::Run(text::joined(lines, " "@)),
            Seq::<char>::empty(),
        ),
{
    let before = lines.drop_last();
    let last = lines.last();
    assert(is_of_statement(lines[lines.len() - 1]));
    words::trimmed_text_stays(last);
    assert forall|i: int| 0 <= i < lines.len() implies words::is_plain_line(#[trigger] lines[i]) by {
        assert(is_of_statement(lines[i]));
    }
    words::lines_make_a_line(lines);
    words::trimmed_text_stays(text::joined(lines, " "@));
    if before.len() > 0 {
        assert(go_on(before)) by {
            assert forall|i: int| 0 <= i < before.len() implies is_of_statement(
                #[trigger] before[i],
            ) && (i < before.len() - 1 ==> before[i].last() != ';') by {
                assert(before[i] == lines[i]);
            }
        }
        assert(before.last() == lines[lines.len() - 2]);
        lemma_kept(before);
        assert(kept_after(before) + last + " "@ =~= text::joined(lines, " "@) + " "@);
    } else {
        assert(Seq::<char>::empty() + last + " "@ =~= text::joined(lines, " "@) + " "@) by {
            assert(lines[0] == last);
        }
    }
}

/// The console's own words: `exit`, `quit` and `\q` in any case end it, `schema` shows the
/// tables where no statement is begun, and an empty line changes nothing.
pub proof fn own_words_are_understood(buffer: Seq<char>, line: Seq<char>)
    ensures
        text::same_name(words::trimmed(line), "exit"@) ==> line_read(buffer, line).0 is Quit,
        text::same_name(words::trimmed(line), "quit"@) ==> line_read(buffer, line).0 is Quit,
        text::same_name(words::trimmed(line), "\\q"@) ==> line_read(buffer, line).0 is Quit,
        text::same_name(words::trimmed(line), "schema"@) ==> line_read(Seq::empty(), line) == (
            ActionV::Schema,
            Seq::<char>::empty(),
        ),
        words::trimmed(line).len() == 0 ==> line_read(buffer, line) == (ActionV::Wait, buffer),
{
    reveal_strlit("exit");
    reveal_strlit("quit");
    reveal_strlit("\\q");
    reveal_strlit("schema");
    reveal_strlit("source ");
    let t = words::trimmed(line);
    if text::same_name(t, "schema"@) {
        text::names_are_the_same_by_letters(t, "schema"@);
        text::names_are_the_same_by_letters(t, "exit"@);
        text::names_are_the_same_by_letters(t, "quit"@);
        text::names_are_the_same_by_letters(t, "\\q"@);
        assert(t.len() == 6);
    }
    if t.len() == 0 {
        text::names_are_the_same_by_letters(t, "schema"@);
        text::names_are_the_same_by_letters(t, "exit"@);
        text::names_are_the_same_by_letters(t, "quit"@);
        text::names_are_the_same_by_letters(t, "\\q"@);
    }
}

/// `source` and a path, plain or with a semicolon behind it, runs the file of that path.
pub proof fn source_names_a_file(buffer: Seq<char>, path: Seq<char>)
    requires
        words::is_plain_line(path),
        path[0] != '"' && path[0] != '\'' && path.last() != '"' && path.last() != '\''
            && path.last() != ';',
        !text::white_space('s'),
        !text::white_space(';'),
    ensures
        line_read(buffer, "source "@ + path) == (ActionV::Source(path), Seq::<char>::empty()),
        line_read(buffer, "source "@ + path + ";"@) == (
            ActionV::Source(path),
            Seq::<char>::empty(),
        ),
{
    reveal_strlit("source ");
    reveal_strlit(";");
    let plain = "source "@ + path;
    let marked = "source "@ + path + ";"@;
    words::trimmed_text_stays(plain);
    words::trimmed_text_stays(marked);
    words::trimmed_text_stays(path);
    words::trimmed_text_stays(path + ";"@);
    assert(plain.take(7) =~= "source "@);
    assert(marked.take(7) =~= "source "@);
    assert(plain.skip(7) =~= path);
    assert(marked.skip(7) =~= path + ";"@);
    lemma_long(plain);
    lemma_long(marked);
    assert((path + ";"@).drop_last() =~= path);
    assert(words::trimmed_end_of(path, ';') == path);
    assert(words::trimmed_end_of(path + ";"@, ';') == path);
    assert(words::trimmed_of(path, '"') == path);
    assert(words::trimmed_of(path, '\'') == path);
}

proof fn lemma_long(line: Seq<char>)
    requires
        line.len() > 4,
    ensures
        !asks_to_quit(line),
{
    reveal_strlit("exit");
    reveal_strlit("quit");
    reveal_strlit("\\q");
    text::names_are_the_same_by_letters(line, "exit"@);
    text::names_are_the_same_by_letters(line, "quit"@);
    text::names_are_the_same_by_letters(line, "\\q"@);
}

/// The statements of a script are its parts between semicolons, each without white space
/// at its ends, but for those of which nothing is left.
pub proof fn script_is_read_part_by_part(list: Seq<Seq<char>>)
    ensures
        statements_between(list) == list.map_values(|s: Seq<char>| words::trimmed(s)).filter(
            |s: Seq<char>| s.len() > 0,
        ),
    decreases list.len(),
{
    reveal(Seq::filter);
    let all = list.map_values(|s: Seq<char>| words::trimmed(s));
    if list.len() > 0 {
        script_is_read_part_by_part(list.drop_last());
        assert(all.drop_last() =~= list.drop_last().map_values(
            |s: Seq<char>| words::trimmed(s),
        ));
        assert(all.last() == words::trimmed(list.last()));
    }
}

/// The prompt shows the user, and the database once one is in use; within a statement it
/// is an arrow.
pub proof fn prompt_shows_user_and_database(user: Seq<char>, db: Seq<char>, buffer: Seq<char>)
    requires
        buffer.len() > 0,
    ensures
        prompt_text(ConsoleV { user, database: None, buffer: Seq::empty() }) == "srrdb ("@ + user
            + ")> "@,
        prompt_text(ConsoleV { user, database: Some(db), buffer: Seq::empty() }) == "srrdb ("@
            + user + "@"@ + db + ")> "@,
        prompt_text(ConsoleV { user, database: Some(db), buffer }) == "    -> "@,
{
}

/// The database of the prompt is the one of the last `USE`.
pub proof fn last_use_counts(statements: Seq<SqlStatement>, k: int)
    requires
        0 <= k < statements.len(),
        statements[k] matches SqlStatement::Use(Some(p)),
        forall|i: int| k < i < statements.len() ==> !(#[trigger] statements[i] is Use),
    ensures
        statements[k] matches SqlStatement::Use(Some(p)) && used_database(statements) == Some(
            crate::sql::ast::path_text(p),
        ),
    decreases statements.len(),
{
    if k < statements.len() - 1 {
        assert(!(statements[statements.len() - 1] is Use));
        let before = statements.drop_last();
        assert forall|i: int| k < i < before.len() implies !(#[trigger] before[i] is Use) by {
            assert(before[i] == statements[i]);
        }
        last_use_counts(before, k);
    }
}

/// `schema` describes each table that is listed in the first column, in their order.
pub proof fn schema_describes_each_table(rows: Seq<Seq<Option<Seq<u8>>>>)
    requires
        forall|i: int| 0 <= i < rows.len() ==> (#[trigger] rows[i]).len() > 0,
    ensures
        first_texts(rows) == Seq::new(rows.len(), |i: int| cell_text(rows[i][0])),
    decreases rows.len(),
{
    let want = Seq::new(rows.len(), |i: int| cell_text(rows[i][0]));
    if rows.len() > 0 {
        let before = rows.drop_last();
        assert forall|i: int| 0 <= i < before.len() implies (#[trigger] before[i]).len() > 0 by {
            assert(before[i] == rows[i]);
        }
        schema_describes_each_table(before);
        assert(rows[rows.len() - 1] == rows.last());
        assert(first_texts(rows) =~= want);
    } else {
        assert(first_texts(rows) =~= want);
    }
}

// ---------------------------------------------------------------------------
// What holds of tables
// ---------------------------------------------------------------------------

/// A column is as wide as the widest of its name and its values.
pub proof fn columns_are_wide_enough(
    columns: Seq<Seq<u8>>,
    rows: Seq<Seq<Option<Seq<u8>>>>,
    c: int,
)
    requires
        0 <= c < columns.len(),
    ensures
        widths_of(columns, rows).len() == columns.len(),
        widths_of(columns, rows)[c] >= encode_utf8(shown(columns[c])).len(),
        forall|i: int|
            0 <= i < rows.len() && c < (#[trigger] rows[i]).len() ==> widths_of(columns, rows)[c]
                >= cell_width(rows[i][c]),
        widths_of(columns, rows)[c] == encode_utf8(shown(columns[c])).len() || exists|i: int|
            0 <= i < rows.len() && c < (#[trigger] rows[i]).len() && widths_of(columns, rows)[c]
                == cell_width(rows[i][c]),
    decreases rows.len(),
{
    if rows.len() > 0 {
        let before = rows.drop_last();
        columns_are_wide_enough(columns, before, c);
        let last = rows.len() - 1;
        assert(rows[last] == rows.last());
        assert forall|i: int| 0 <= i < rows.len() && c < (#[trigger] rows[i]).len() implies widths_of(
            columns,
            rows,
        )[c] >= cell_width(rows[i][c]) by {
            if i < last {
                assert(before[i] == rows[i]);
            }
        }
        if widths_of(columns, rows)[c] == widths_of(columns, before)[c] {
            if widths_of(columns, before)[c] != encode_utf8(shown(columns[c])).len() {
                let i = choose|i: int|
                    0 <= i < before.len() && c < (#[trigger] before[i]).len() && widths_of(
                        columns,
                        before,
                    )[c] == cell_width(before[i][c]);
                assert(rows[i] == before[i]);
            }
        } else {
            assert(c < rows[last].len());
        }
    }
}

/// Where a column begins in a line: behind the bar of the line and, for each column before
/// it, its width, a space on either side and a bar.
pub open spec fn offset(widths: Seq<nat>, k: int) -> int
    decreases k,
{
    if k <= 0 {
        1
    } else {
        offset(widths, k - 1) + widths[k - 1] + 3
    }
}

proof fn lemma_fields(texts: Seq<Seq<char>>, widths: Seq<nat>, n: int, k: int)
    requires
        0 <= k < n <= texts.len(),
        n <= widths.len(),
        forall|i: int| 0 <= i < n ==> (#[trigger] texts[i]).len() <= widths[i],
    ensures
        fields(texts, widths, n).len() == offset(widths, n) - 1,
        offset(widths, k) + widths[k] + 3 <= offset(widths, n),
        0 <= k ==> 1 <= offset(widths, k),
        fields(texts, widths, n).subrange(
            offset(widths, k) - 1,
            offset(widths, k) - 1 + widths[k] + 3,
        ) == seq![' '] + filled_up(texts[k], widths[k]) + seq![' ', '|'],
    decreases n,
{
    reveal_strlit(" ");
    reveal_strlit(" |");
    lemma_fields_len(texts, widths, n);
    lemma_fields_len(texts, widths, n - 1);
    lemma_offset(widths, k);
    assert(texts[k].len() <= widths[k]);
    let all = fields(texts, widths, n);
    let want = seq![' '] + filled_up(texts[k], widths[k]) + seq![' ', '|'];
    if k < n - 1 {
        lemma_fields(texts, widths, n - 1, k);
        assert(all.subrange(
            offset(widths, k) - 1,
            offset(widths, k) - 1 + widths[k] + 3,
        ) =~= fields(texts, widths, n - 1).subrange(
            offset(widths, k) - 1,
            offset(widths, k) - 1 + widths[k] + 3,
        ));
    } else {
        assert(all.subrange(offset(widths, k) - 1, offset(widths, k) - 1 + widths[k] + 3)
            =~= want);
    }
}

proof fn lemma_offset(widths: Seq<nat>, k: int)
    requires
        0 <= k,
    ensures
        1 <= offset(widths, k),
    decreases k,
{
    if k > 0 {
        lemma_offset(widths, k - 1);
    }
}

proof fn lemma_fields_len(texts: Seq<Seq<char>>, widths: Seq<nat>, n: int)
    requires
        0 <= n <= texts.len(),
        n <= widths.len(),
        forall|i: int| 0 <= i < n ==> (#[trigger] texts[i]).len() <= widths[i],
    ensures
        fields(texts, widths, n).len() == offset(widths, n) - 1,
    decreases n,
{
    reveal_strlit(" ");
    reveal_strlit(" |");
    if n > 0 {
        lemma_fields_len(texts, widths, n - 1);
        assert(texts[n - 1].len() <= widths[n - 1]);
    }
}

proof fn lemma_dashes(widths: Seq<nat>)
    ensures
        dashes(widths).len() == offset(widths, widths.len() as int) - 1,
        forall|i: int|
            0 <= i < dashes(widths).len() ==> #[trigger] dashes(widths)[i] == '-' || dashes(
                widths,
            )[i] == '+',
    decreases widths.len(),
{
    reveal_strlit("-");
    reveal_strlit("-+");
    if widths.len() > 0 {
        let before = widths.drop_last();
        lemma_dashes(before);
        lemma_offset_front(before, widths, before.len() as int);
    }
}

proof fn lemma_offset_front(a: Seq<nat>, b: Seq<nat>, k: int)
    requires
        0 <= k <= a.len() <= b.len(),
        forall|i: int| 0 <= i < k ==> a[i] == #[trigger] b[i],
    ensures
        offset(a, k) == offset(b, k),
    decreases k,
{
    if k > 0 {
        assert(a[k - 1] == b[k - 1]);
        lemma_offset_front(a, b, k - 1);
    }
}

/// In a line of a table, where no text is wider than its column, each text stands in its
/// column behind a bar and a space and has spaces behind it up to the next bar, and all
/// lines are as long as those between the rows.
pub proof fn texts_stand_in_their_columns(texts: Seq<Seq<char>>, widths: Seq<nat>, k: int)
    requires
        texts.len() == widths.len(),
        0 <= k < texts.len(),
        forall|i: int| 0 <= i < texts.len() ==> (#[trigger] texts[i]).len() <= widths[i],
    ensures
        ({
            let line = line_of(texts, widths);
            let at = offset(widths, k);
            &&& line.len() == border(widths).len()
            &&& line[0] == '|' && line.last() == '\n'
            &&& border(widths)[0] == '+' && border(widths).last() == '\n'
            &&& line[at] == ' '
            &&& line.subrange(at + 1, at + 1 + texts[k].len()) == texts[k]
            &&& forall|i: int|
                at + 1 + texts[k].len() <= i < at + 2 + widths[k] ==> #[trigger] line[i] == ' '
            &&& line[at + 2 + widths[k]] == '|'
        }),
{
    reveal_strlit("|");
    reveal_strlit("+");
    reveal_strlit("\n");
    let n = texts.len() as int;
    lemma_fields(texts, widths, n, k);
    lemma_dashes(widths);
    let all = fields(texts, widths, n);
    let line = line_of(texts, widths);
    let at = offset(widths, k);
    let part = all.subrange(at - 1, at - 1 + widths[k] + 3);
    let want = seq![' '] + filled_up(texts[k], widths[k]) + seq![' ', '|'];
    assert(texts[k].len() <= widths[k]);
    assert forall|i: int| 0 <= i < widths[k] + 3 implies #[trigger] line[at + i] == want[i] by {
        assert(line[at + i] == all[at - 1 + i]);
        assert(part[i] == want[i]);
    }
    assert(line[at + 0] == want[0]);
    assert(line.subrange(at + 1, at + 1 + texts[k].len()) =~= texts[k]) by {
        assert forall|i: int| 0 <= i < texts[k].len() implies line[at + 1 + i] == texts[k][i] by {
            assert(line[at + (1 + i)] == want[1 + i]);
        }
    }
    assert forall|i: int| at + 1 + texts[k].len() <= i < at + 2 + widths[k] implies #[trigger] line[i]
        == ' ' by {
        assert(line[at + (i - at)] == want[i - at]);
    }
    assert(line[at + (2 + widths[k])] == want[(2 + widths[k]) as int]);
}

/// A result set is shown as a table: a line between rows, the names, a line, the rows in
/// their order, a line, and how many rows there are.
pub proof fn results_are_shown_as_tables(
    columns: Seq<Seq<u8>>,
    rows: Seq<Seq<Option<Seq<u8>>>>,
    more: Seq<Option<Seq<u8>>>,
)
    ensures
        ({
            let widths = widths_of(columns, rows);
            &&& lines_of(Seq::empty(), widths) == Seq::<char>::empty()
            &&& lines_of(rows.push(more), widths) == lines_of(rows, widths) + line_of(
                row_texts(more),
                widths,
            )
            &&& table_text(columns, rows) == border(widths) + line_of(name_texts(columns), widths)
                + border(widths) + lines_of(rows, widths) + border(widths) + text::nat_text(
                rows.len(),
            ) + (if rows.len() == 1 {
                " row in set\n"@
            } else {
                " rows in set\n"@
            })
        }),
        cell_text(None) == "NULL"@,
        cell_width(None) == 4,
{
    assert(rows.push(more).drop_last() =~= rows);
}

/// Quotes of either kind around the path of a file do not count.
pub proof fn quotes_around_a_path_do_not_count(path: Seq<char>, quote: char)
    requires
        words::is_plain_line(path),
        path[0] != '"' && path[0] != '\'' && path.last() != '"' && path.last() != '\''
            && path.last() != ';',
        quote == '"' || quote == '\'',
        !text::white_space(quote),
    ensures
        path_typed(seq![quote] + path + seq![quote]) == path,
{
    let quoted = seq![quote] + path + seq![quote];
    words::trimmed_text_stays(quoted);
    assert(words::trimmed_end_of(quoted, ';') == quoted);
    lemma_unquoted(path, quote);
    assert(words::trimmed_of(path, '\'') == path);
    assert(words::trimmed_of(quoted, '"') == if quote == '"' {
        path
    } else {
        quoted
    });
}

proof fn lemma_unquoted(path: Seq<char>, quote: char)
    requires
        path.len() > 0,
        path[0] != quote && path.last() != quote,
    ensures
        words::trimmed_of(seq![quote] + path + seq![quote], quote) == path,
{
    let quoted = seq![quote] + path + seq![quote];
    let p = words::is_char(quote);
    let rest = path + seq![quote];
    assert(quoted.drop_first() =~= rest);
    assert(rest[0] == path[0]);
    assert(p(quoted[0]) && !p(rest[0]));
    assert(words::without_front(rest, p) == rest);
    assert(words::without_front(quoted, p) == rest);
    assert(rest.drop_last() =~= path);
    assert(p(rest.last()) && !p(path.last()));
    assert(words::without_end(path, p) == path);
    assert(words::without_end(rest, p) == path);
}

/// What a statement changed is shown as a number of rows and the last number that was
/// given, and an error as its code and message, each in a line of its own.
pub proof fn changes_and_errors_are_shown_in_a_line(rows: u64, id: u64, code: u16, message: String)
    ensures
        ({
            let shown = result_text(
                QueryResult::Affected { affected_rows: rows, last_insert_id: id },
            );
            &&& shown == "Query OK, "@ + text::int_text(rows as int)
                + " row(s) affected (last insert id: "@ + text::int_text(id as int) + ")\n"@
            &&& shown.last() == '\n'
        }),
        ({
            let shown = result_text(QueryResult::Error { code, message });
            &&& shown == "ERROR "@ + text::int_text(code as int) + ": "@ + message@ + "\n"@
            &&& shown.last() == '\n'
        }),
{
    reveal_strlit(")\n");
    reveal_strlit("\n");
}

} // verus!
