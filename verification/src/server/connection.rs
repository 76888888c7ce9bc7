//! What the server answers: to the handshake, to commands, and to statements.

use vstd::prelude::*;
use vstd::utf8::*;

use crate::engine::catalog;
use crate::engine::executor;
use crate::engine::executor::{ExecuteResult, Executor, ResultV};
use crate::engine::storage::{Row, RowV};
use crate::engine::types::{Column, ColumnV, Numbers, NumbersV};
use crate::model;
use crate::protocol::command;
use crate::protocol::command::{parse_command, Command, CommandV};
use crate::protocol::frame;
use crate::protocol::frame::{Packet, PacketV};
use crate::protocol::handshake;
use crate::protocol::handshake::{
    build_handshake, eof_payload, err_payload, generate_scramble, ok_payload,
    verify_native_password_hash, HandshakeResponse, ResponseV, CLIENT_CONNECT_WITH_DB,
    CLIENT_LONG_PASSWORD, CLIENT_MULTI_RESULTS, CLIENT_PLUGIN_AUTH, CLIENT_PROTOCOL_41,
    CLIENT_PS_MULTI_RESULTS, CLIENT_SECURE_CONNECTION, CLIENT_TRANSACTIONS,
    SERVER_STATUS_AUTOCOMMIT,
};
use crate::protocol::lenenc;
use crate::protocol::resultset;
use crate::protocol::resultset::{
    column_count_payload, column_definition_payload, text_row_payload,
};
use crate::server::session;
use crate::server::session::{Session, SessionV, User, UserV};
use crate::sql::ast::{Path, SqlStatement};
use crate::sql::error::Error;
use crate::sql::parser::Parser;
use crate::text;
use crate::text::equal_ignoring_case;
use crate::words;

verus! {

broadcast use crate::model::group_views;

// ---------------------------------------------------------------------------
// The handshake
// ---------------------------------------------------------------------------

/// What the server can do.
pub const SERVER_CAPABILITIES: u32 = CLIENT_PROTOCOL_41 | CLIENT_SECURE_CONNECTION
    | CLIENT_PLUGIN_AUTH | CLIENT_CONNECT_WITH_DB | CLIENT_MULTI_RESULTS | CLIENT_PS_MULTI_RESULTS
    | CLIENT_LONG_PASSWORD | CLIENT_TRANSACTIONS;

/// The packet that the server greets a client with.
pub fn greeting(scramble: &[u8; 20]) -> (r: Vec<u8>)
    ensures
        r@ == handshake::greeting_bytes(1, scramble@, SERVER_CAPABILITIES, 45),
{
    build_handshake(1, scramble, SERVER_CAPABILITIES, 45)
}

/// Starts an exchange with a client: a scramble that was drawn for it, and the
/// packet that tells it to the client.
pub fn start_exchange() -> (r: ([u8; 20], Vec<u8>))
    ensures
        r.1@ == handshake::greeting_bytes(1, r.0@, SERVER_CAPABILITIES, 45),
{
    let scramble = generate_scramble();
    let packet = greeting(&scramble);
    (scramble, packet)
}

/// The client may enter: no password is asked for, or its answer fits the password.
pub open spec fn is_admitted(
    response: ResponseV,
    scramble: Seq<u8>,
    default_password: Option<Seq<char>>,
) -> bool {
    match default_password {
        None => true,
        Some(password) => handshake::answer_fits(
            handshake::double_hash(encode_utf8(password))@,
            scramble,
            response.auth_response,
        ),
    }
}

/// The session of a client that was admitted.
pub open spec fn session_of(response: ResponseV, default_password: Option<Seq<char>>) -> SessionV {
    SessionV {
        user: match default_password {
            None => UserV { name: response.username, password_hash: None },
            Some(password) => session::user_with_password(response.username, password),
        },
        database: "srrdb"@,
    }
}

/// The session of a client, and the packet that answers its response. A client that
/// is not admitted gets an error and no session.
pub fn authenticate(
    response: &HandshakeResponse,
    scramble: &[u8; 20],
    default_password: &Option<String>,
) -> (r: (Option<Session>, Vec<u8>))
    ensures
        is_admitted(response@, scramble@, model::view_opt(*default_password)) ==> r.0 is Some
            && r.0->0@ == session_of(response@, model::view_opt(*default_password)) && r.1@
            == handshake::ok_bytes(0, 0, SERVER_STATUS_AUTOCOMMIT),
        !is_admitted(response@, scramble@, model::view_opt(*default_password)) ==> r.0 is None
            && r.1@ == handshake::err_bytes(1045, "Access denied for user"@),
{
    let user = match default_password {
        Some(password) => {
            let user = User::with_password(response.username.as_str(), password.as_str());
            let valid: bool = match &user.password_hash {
                Some(stored) => verify_native_password_hash(
                    stored,
                    scramble,
                    response.auth_response.as_slice(),
                ),
                None => false,
            };
            if !valid {
                return (None, err_payload(1045, "Access denied for user"));
            }
            user
        },
        None => User::new(response.username.as_str()),
    };
    (Some(Session::new_with_user(user)), ok_payload(0, 0, SERVER_STATUS_AUTOCOMMIT))
}

// ---------------------------------------------------------------------------
// Places of packets
// ---------------------------------------------------------------------------

/// The packet that greets a client: the first of a connection.
pub fn greeting_packet(payload: Vec<u8>) -> (r: Packet)
    ensures
        r@ == (PacketV { seq_id: 0, payload: payload@ }),
{
    Packet { seq_id: 0, payload }
}

/// The packet that admits a client or does not: the third of a connection, behind the
/// client's response.
pub fn admission_packet(payload: Vec<u8>) -> (r: Packet)
    ensures
        r@ == (PacketV { seq_id: 2, payload: payload@ }),
{
    Packet { seq_id: 2, payload }
}

/// The place of the first packet that answers a command: the one behind the command,
/// and the first place behind the last.
pub fn reply_place(command: &Packet) -> (r: u8)
    ensures
        r == (command@.seq_id + 1) % 256,
{
    command.seq_id.wrapping_add(1)
}

/// The packets that answer a command stand behind it, one after the other.
pub proof fn replies_follow_the_command(command: PacketV, i: nat)
    ensures
        frame::seq_after(((command.seq_id + 1) % 256) as u8, i) == (command.seq_id + 1 + i) % 256,
{
    frame::places_are_consecutive(((command.seq_id + 1) % 256) as u8, i);
}

// ---------------------------------------------------------------------------
// Commands
// ---------------------------------------------------------------------------

/// What a command asks of the server.
#[derive(Debug)]
pub enum Step {
    /// End the connection.
    Close,
    /// Send one packet.
    Reply(Vec<u8>),
    /// Run the statements of a text.
    Run(String),
}

/// What a `Step` stands for.
#[verifier::ext_equal]
pub enum StepV {
    Close,
    Reply(Seq<u8>),
    Run(Seq<char>),
}

impl View for Step {
    type V = StepV;

    open spec fn view(&self) -> StepV {
        match self {
            Step::Close => StepV::Close,
            Step::Reply(p) => StepV::Reply(p@),
            Step::Run(sql) => StepV::Run(sql@),
        }
    }
}

pub open spec fn plain_ok() -> Seq<u8> {
    handshake::ok_bytes(0, 0, SERVER_STATUS_AUTOCOMMIT)
}

/// What a packet asks of the server, and the session after it. The database is the
/// only thing of the session that changes.
pub open spec fn step_for(
    payload: Seq<u8>,
    s: SessionV,
    c: catalog::CatalogV,
) -> (StepV, SessionV) {
    match command::command_read(payload) {
        Err(e) => (StepV::Reply(handshake::err_bytes(1064, e)), s),
        Ok(CommandV::Quit) => (StepV::Close, s),
        Ok(CommandV::Ping) => (StepV::Reply(plain_ok()), s),
        Ok(CommandV::InitDb(db)) => if catalog::has_database(c, db) {
            (StepV::Reply(plain_ok()), SessionV { database: db, ..s })
        } else {
            (StepV::Reply(handshake::err_bytes(1049, "Unknown database"@)), s)
        },
        Ok(CommandV::Query(sql)) => (StepV::Run(sql), s),
        Ok(CommandV::Unknown(id, _)) => if id == 27 {
            (StepV::Reply(plain_ok()), s)
        } else {
            (
                StepV::Reply(
                    handshake::err_bytes(1045, "Unknown command: "@ + text::nat_text(id as nat)),
                ),
                s,
            )
        },
    }
}

/// Reads a command and decides what it asks of the server.
pub fn handle_command(payload: &[u8], session: &mut Session, executor: &Executor) -> (r: Step)
    ensures
        step_for(payload@, old(session)@, executor@.catalog) == (r@, final(session)@),
{
    match parse_command(payload) {
        Err(e) => Step::Reply(err_payload(1064, e.as_str())),
        Ok(Command::Quit) => Step::Close,
        Ok(Command::Ping) => Step::Reply(ok_payload(0, 0, SERVER_STATUS_AUTOCOMMIT)),
        Ok(Command::InitDb(db)) => {
            if executor.database_exists(db.as_str()) {
                session.database = db;
                Step::Reply(ok_payload(0, 0, SERVER_STATUS_AUTOCOMMIT))
            } else {
                Step::Reply(err_payload(1049, "Unknown database"))
            }
        },
        Ok(Command::Query(sql)) => Step::Run(sql),
        Ok(Command::Unknown(id, _)) => {
            if id == 27 {
                Step::Reply(ok_payload(0, 0, SERVER_STATUS_AUTOCOMMIT))
            } else {
                let mut message = "Unknown command: ".to_string();
                text::push_u64(&mut message, id as u64);
                Step::Reply(err_payload(1045, message.as_str()))
            }
        },
    }
}

// ---------------------------------------------------------------------------
// Statements
// ---------------------------------------------------------------------------

/// The packets of the columns of a result set.
pub open spec fn column_payloads(columns: Seq<ColumnV>) -> Seq<Seq<u8>> {
    Seq::new(columns.len(), |i: int| resultset::column_bytes(columns[i]))
}

/// The packets of the rows of a result set.
pub open spec fn row_payloads(n: NumbersV, rows: Seq<RowV>) -> Seq<Seq<u8>> {
    Seq::new(rows.len(), |i: int| resultset::row_bytes(n, rows[i].values))
}

/// The packets that answer a statement: one reply, or a result set with the number
/// of columns, the columns, an end, the rows, and an end.
pub open spec fn reply_payloads(n: NumbersV, r: ResultV) -> Seq<Seq<u8>> {
    match r {
        ResultV::Rows { columns, list } => if columns.len() == 0 {
            seq![plain_ok()]
        } else {
            seq![lenenc::lenenc(columns.len())] + column_payloads(columns)
                + seq![handshake::eof_bytes()] + row_payloads(n, list)
                + seq![handshake::eof_bytes()]
        },
        ResultV::Affected { count, last_insert_id } => seq![
            handshake::ok_bytes(count, last_insert_id, SERVER_STATUS_AUTOCOMMIT),
        ],
        ResultV::DatabaseChanged(_) => seq![plain_ok()],
        ResultV::Done => seq![plain_ok()],
    }
}

/// The session after a statement.
pub open spec fn session_after(s: SessionV, r: ResultV) -> SessionV {
    match r {
        ResultV::DatabaseChanged(db) => SessionV { database: db, ..s },
        _ => s,
    }
}

fn push_columns(out: &mut Vec<Vec<u8>>, columns: &Vec<Column>)
    ensures
        model::views(final(out)@) == model::views(old(out)@) + column_payloads(
            model::views(columns@),
        ),
{
    let ghost start = model::views(out@);
    let ghost all = column_payloads(model::views(columns@));
    let mut i: usize = 0;
    assert(start + all.take(0) =~= start);
    while i < columns.len()
        invariant
            start == model::views(old(out)@),
            all == column_payloads(model::views(columns@)),
            i <= columns.len(),
            model::views(out@) == start + all.take(i as int),
        decreases columns.len() - i,
    {
        out.push(column_definition_payload(&columns[i]));
        i = i + 1;
        assert(model::views(out@) =~= start + all.take(i as int));
    }
    assert(all.take(all.len() as int) =~= all);
}

fn push_rows(out: &mut Vec<Vec<u8>>, rows: &Vec<Row>, numbers: &Numbers)
    ensures
        model::views(final(out)@) == model::views(old(out)@) + row_payloads(
            numbers@,
            model::views(rows@),
        ),
{
    let ghost start = model::views(out@);
    let ghost all = row_payloads(numbers@, model::views(rows@));
    let mut i: usize = 0;
    assert(start + all.take(0) =~= start);
    while i < rows.len()
        invariant
            start == model::views(old(out)@),
            all == row_payloads(numbers@, model::views(rows@)),
            i <= rows.len(),
            model::views(out@) == start + all.take(i as int),
        decreases rows.len() - i,
    {
        out.push(text_row_payload(rows[i].values.as_slice(), numbers));
        i = i + 1;
        assert(model::views(out@) =~= start + all.take(i as int));
    }
    assert(all.take(all.len() as int) =~= all);
}

/// The packets that answer a statement.
pub fn reply_to(result: &ExecuteResult, numbers: &Numbers) -> (r: Vec<Vec<u8>>)
    ensures
        model::views(r@) == reply_payloads(numbers@, result@),
{
    let mut out: Vec<Vec<u8>> = Vec::new();
    match result {
        ExecuteResult::Rows { columns, rows } => {
            if columns.len() == 0 {
                out.push(ok_payload(0, 0, SERVER_STATUS_AUTOCOMMIT));
            } else {
                out.push(column_count_payload(columns.len()));
                push_columns(&mut out, columns);
                out.push(eof_payload());
                push_rows(&mut out, rows, numbers);
                out.push(eof_payload());
            }
        },
        ExecuteResult::Affected { rows, last_insert_id } => {
            out.push(ok_payload(*rows, *last_insert_id, SERVER_STATUS_AUTOCOMMIT));
        },
        ExecuteResult::DatabaseChanged(_) => {
            out.push(ok_payload(0, 0, SERVER_STATUS_AUTOCOMMIT));
        },
        ExecuteResult::Done => {
            out.push(ok_payload(0, 0, SERVER_STATUS_AUTOCOMMIT));
        },
    }
    assert(model::views(out@) =~= reply_payloads(numbers@, result@));
    out
}

/// The session after a statement: a `USE` changes the database.
pub fn follow(session: &mut Session, result: &ExecuteResult)
    ensures
        final(session)@ == session_after(old(session)@, result@),
{
    if let ExecuteResult::DatabaseChanged(db) = result {
        session.database = db.clone();
    }
}

/// The packets that answer a statement or its failure.
pub open spec fn answer_payloads(n: NumbersV, r: Result<ResultV, Seq<char>>) -> Seq<Seq<u8>> {
    match r {
        Ok(v) => reply_payloads(n, v),
        Err(e) => seq![handshake::err_bytes(1064, e)],
    }
}

/// Executes a statement of a session. Returns the packets that answer it, and
/// whether the statements that follow it are to be executed: none is after a
/// failure.
pub fn answer_statement(
    executor: &mut Executor,
    session: &mut Session,
    statement: &SqlStatement,
    now: u64,
) -> (r: (Vec<Vec<u8>>, bool))
    requires
        executor::can_run(old(executor)@, old(session)@.database, *statement, now),
    ensures
        ({
            let o = executor::statement_outcome(
                old(executor)@,
                old(session)@.database,
                *statement,
                now,
            );
            &&& final(executor)@ == o.state
            &&& model::views(r.0@) == answer_payloads(o.state.numbers, o.result)
            &&& r.1 == (o.result is Ok)
            &&& final(session)@ == (match o.result {
                Ok(v) => session_after(old(session)@, v),
                Err(_) => old(session)@,
            })
        }),
{
    match executor.execute(session.database.as_str(), statement, now) {
        Ok(result) => {
            follow(session, &result);
            (reply_to(&result, &executor.numbers), true)
        },
        Err(e) => {
            let mut out: Vec<Vec<u8>> = Vec::new();
            out.push(err_payload(1064, e.as_str()));
            assert(model::views(out@) =~= seq![handshake::err_bytes(1064, e@)]);
            (out, false)
        },
    }
}

/// What is to be run of a text: its statements, or where it has none the packet
/// that answers it.
pub open spec fn run_of(parsed: Result<Seq<SqlStatement>, Error>) -> Result<
    Seq<SqlStatement>,
    Seq<u8>,
> {
    match parsed {
        Err(Error::Parse(f)) => Err(
            handshake::err_bytes(1064, crate::sql::error::parse_failure_text(f)),
        ),
        Err(Error::Tokenize(f)) => Err(
            handshake::err_bytes(1064, crate::sql::error::token_failure_text(f)),
        ),
        Ok(statements) => if statements.len() == 0 {
            Err(plain_ok())
        } else {
            Ok(statements)
        },
    }
}

/// What is to be run of a text that was parsed.
pub fn start_run(parsed: Result<Vec<SqlStatement>, Error>) -> (r: Result<
    Vec<SqlStatement>,
    Vec<u8>,
>)
    ensures
        match r {
            Ok(v) => parsed is Ok && run_of(Ok(parsed->Ok_0@)) == Ok::<Seq<SqlStatement>, Seq<u8>>(
                v@,
            ),
            Err(p) => match parsed {
                Ok(v) => run_of(Ok(v@)) == Err::<Seq<SqlStatement>, Seq<u8>>(p@),
                Err(e) => run_of(Err(e)) == Err::<Seq<SqlStatement>, Seq<u8>>(p@),
            },
        },
{
    match parsed {
        Ok(statements) => {
            if statements.len() == 0 {
                Err(ok_payload(0, 0, SERVER_STATUS_AUTOCOMMIT))
            } else {
                Ok(statements)
            }
        },
        Err(Error::Parse(f)) => Err(err_payload(1064, f.to_string().as_str())),
        Err(Error::Tokenize(f)) => Err(err_payload(1064, f.to_string().as_str())),
    }
}

/// What the statements of a text are, as an `Error` tells it where there are none.
pub open spec fn parsed(sql: Seq<char>) -> Result<Seq<SqlStatement>, Error> {
    match crate::sql::parser::parsed_sql(sql) {
        Ok(v) => Ok(v),
        Err(f) => Err(Error::Parse(f)),
    }
}

/// What follows the first word of a text, without the spaces in front of it.
pub open spec fn behind_word(s: Seq<char>) -> Seq<char> {
    match words::cut_at(s, ' ').1 {
        Some(rest) => words::trimmed(rest),
        None => Seq::empty(),
    }
}

/// The database that a text of the form `USE DATABASE name` names.
pub open spec fn named_database(sql: Seq<char>) -> Option<Seq<char>> {
    let t = words::trimmed(words::trimmed_end_of(words::trimmed(sql), ';'));
    let rest = behind_word(t);
    let name = words::trimmed_of(behind_word(rest), '`');
    if text::same_name(words::cut_at(t, ' ').0, "use"@) && text::same_name(
        words::cut_at(rest, ' ').0,
        "database"@,
    ) && name.len() > 0 && words::cut_at(name, ' ').1 is None && words::cut_at(name, ';').1 is None {
        Some(name)
    } else {
        None
    }
}

/// The one statement is a `USE` of a database.
pub open spec fn is_use_of(statements: Seq<SqlStatement>, name: Seq<char>) -> bool {
    statements.len() == 1 && (match statements[0] {
        SqlStatement::Use(Some(p)) => crate::sql::ast::path_text(p) == name,
        _ => false,
    })
}

fn skip_word(s: &str) -> (r: String)
    ensures
        r@ == behind_word(s@),
{
    let (_, rest) = words::cut(s, ' ');
    match rest {
        Some(t) => words::trim(t.as_str()),
        None => {
            let empty = String::new();
            assert(empty@ =~= Seq::<char>::empty());
            empty
        },
    }
}

/// The database that a text of the form `USE DATABASE name` names.
pub fn database_to_use(sql: &str) -> (r: Option<String>)
    ensures
        model::view_opt(r) == named_database(sql@),
{
    let whole = words::trim(sql);
    let bare = words::trim_end_of(whole.as_str(), ';');
    let t = words::trim(bare.as_str());
    let rest = skip_word(t.as_str());
    let last = skip_word(rest.as_str());
    let name = words::trim_of(last.as_str(), '`');
    let (first, _) = words::cut(t.as_str(), ' ');
    let (second, _) = words::cut(rest.as_str(), ' ');
    let (_, more) = words::cut(name.as_str(), ' ');
    let (_, next) = words::cut(name.as_str(), ';');
    if !equal_ignoring_case(first.as_str(), "use") || !equal_ignoring_case(
        second.as_str(),
        "database",
    ) || words::is_empty(name.as_str()) {
        return None;
    }
    match (more, next) {
        (None, None) => Some(name),
        _ => None,
    }
}

/// The statements of a text, or where it has none the packet that answers it. A text
/// of the form `USE DATABASE name` is the statement `USE name`.
pub fn prepare_query(sql: &str) -> (r: Result<Vec<SqlStatement>, Vec<u8>>)
    ensures
        match named_database(sql@) {
            Some(name) => r is Ok && is_use_of(r->Ok_0@, name),
            None => match r {
                Ok(v) => run_of(parsed(sql@)) == Ok::<Seq<SqlStatement>, Seq<u8>>(v@),
                Err(p) => run_of(parsed(sql@)) == Err::<Seq<SqlStatement>, Seq<u8>>(p@),
            },
        },
{
    match database_to_use(sql) {
        Some(name) => {
            let mut parts: Vec<String> = Vec::new();
            parts.push(name);
            assert(text::joined(model::views(parts@), "."@) == name@);
            let mut out: Vec<SqlStatement> = Vec::new();
            out.push(SqlStatement::Use(Some(Path { parts })));
            Ok(out)
        },
        None => start_run(Parser::parse_sql(sql)),
    }
}

// ---------------------------------------------------------------------------
// What holds of answers
// ---------------------------------------------------------------------------

/// Where no password is asked for everybody enters. Where one is, only who answers with
/// what the digest of the password can be had from: the exclusive or of the answer and of
/// the digest of the scramble and what is stored has the digest that is stored.
pub proof fn only_the_password_admits(
    response: ResponseV,
    scramble: Seq<u8>,
    password: Seq<char>,
    secret: Seq<u8>,
)
    requires
        secret.len() == 20,
        response.auth_response.len() == 20 ==> forall|i: int|
            0 <= i < 20 ==> response.auth_response[i] == #[trigger] secret[i]
                ^ handshake::sha1_digest(
                scramble + handshake::sha1_digest(
                    handshake::sha1_digest(encode_utf8(password))@,
                )@,
            )@[i],
    ensures
        is_admitted(response, scramble, None),
        is_admitted(response, scramble, Some(password)) <==> response.auth_response.len() == 20
            && handshake::sha1_digest(secret)@ == handshake::sha1_digest(
            handshake::sha1_digest(encode_utf8(password))@,
        )@,
        session_of(response, Some(password)).database == "srrdb"@,
        session_of(response, None).database == "srrdb"@,
        session_of(response, Some(password)).user.name == response.username,
        session_of(response, None).user.name == response.username,
{
    if response.auth_response.len() == 20 {
        handshake::answer_hides_the_digest(
            encode_utf8(password),
            scramble,
            response.auth_response,
            secret,
        );
    }
}

/// What commands do: one that ends the connection ends it, a query is run as it is, a sign
/// of life is given, and the database changes to one that is there.
pub proof fn commands_do_what_they_say(
    s: SessionV,
    c: catalog::CatalogV,
    sql: Seq<char>,
    rest: Seq<u8>,
)
    ensures
        step_for(seq![1u8] + rest, s, c) == (StepV::Close, s),
        step_for(seq![3u8] + encode_utf8(sql), s, c) == (StepV::Run(sql), s),
        step_for(seq![14u8] + rest, s, c) == (
            StepV::Reply(seq![0u8, 0u8, 0u8, 2u8, 0u8, 0u8, 0u8]),
            s,
        ),
        step_for(seq![2u8] + encode_utf8(sql), s, c) == (if c.databases.contains_key(
            text::lowercase(sql),
        ) {
            (
                StepV::Reply(seq![0u8, 0u8, 0u8, 2u8, 0u8, 0u8, 0u8]),
                SessionV { database: sql, ..s },
            )
        } else {
            (StepV::Reply(handshake::err_bytes(1049, "Unknown database"@)), s)
        }),
{
    command::commands_are_told_by_their_first_byte(sql, 27, rest);
    handshake::replies_are_told_by_their_first_byte(0, 0, 0, sql);
}

/// A result set goes out as the number of its columns, one packet for each column, an end,
/// one packet for each row, and an end; a count of rows as one packet.
pub proof fn results_go_out_packet_by_packet(
    n: NumbersV,
    columns: Seq<ColumnV>,
    rows: Seq<RowV>,
    count: u64,
    last_insert_id: u64,
)
    requires
        0 < columns.len() < 251,
    ensures
        ({
            let out = reply_payloads(n, ResultV::Rows { columns, list: rows });
            let k = columns.len() as int;
            &&& out.len() == columns.len() + rows.len() + 3
            &&& out[0] == seq![columns.len() as u8]
            &&& out[k + 1][0] == 254 && out[k + 1].len() == 5
            &&& out.last() == out[k + 1]
            &&& forall|i: int|
                0 <= i < columns.len() ==> #[trigger] out[1 + i] == resultset::column_bytes(
                    columns[i],
                )
            &&& forall|i: int|
                0 <= i < rows.len() ==> #[trigger] out[k + 2 + i] == resultset::row_bytes(
                    n,
                    rows[i].values,
                )
        }),
        reply_payloads(n, ResultV::Affected { count, last_insert_id }) == seq![
            handshake::ok_bytes(count, last_insert_id, 2),
        ],
        reply_payloads(n, ResultV::Done) == seq![seq![0u8, 0u8, 0u8, 2u8, 0u8, 0u8, 0u8]],
{
    lenenc::numbers_are_marked_by_size(columns.len());
    handshake::replies_are_told_by_their_first_byte(0, 0, 0, Seq::empty());
}

/// `USE DATABASE` and a name, with a semicolon behind it or without, means that database.
pub proof fn use_database_names_it(name: Seq<char>)
    requires
        words::is_plain_line(name),
        !name.contains(' '),
        !name.contains(';'),
        name[0] != '`' && name.last() != '`',
        !text::white_space('U'),
        !text::white_space('D'),
        !text::white_space(';'),
    ensures
        named_database("USE DATABASE "@ + name) == Some(name),
        named_database("USE DATABASE "@ + name + ";"@) == Some(name),
{
    reveal_strlit("USE DATABASE ");
    reveal_strlit(";");
    let s = "USE DATABASE "@ + name;
    let marked = s + ";"@;
    assert(s.last() == name.last());
    assert(name.last() != ';') by {
        if name.last() == ';' {
            assert(name.contains(name[name.len() - 1]));
        }
    }
    words::trimmed_text_stays(s);
    words::trimmed_text_stays(marked);
    assert(words::trimmed_end_of(s, ';') == s);
    assert(marked.drop_last() =~= s);
    assert(words::trimmed_end_of(marked, ';') == s) by {
        assert(marked.last() == ';');
    }
    lemma_named(name);
}

proof fn lemma_named(name: Seq<char>)
    requires
        words::is_plain_line(name),
        !name.contains(' '),
        !name.contains(';'),
        name[0] != '`' && name.last() != '`',
        !text::white_space('U'),
        !text::white_space('D'),
    ensures
        ({
            let t = "USE DATABASE "@ + name;
            let rest = behind_word(t);
            &&& text::same_name(words::cut_at(t, ' ').0, "use"@)
            &&& text::same_name(words::cut_at(rest, ' ').0, "database"@)
            &&& words::trimmed_of(behind_word(rest), '`') == name
            &&& words::cut_at(name, ' ').1 is None
            &&& words::cut_at(name, ';').1 is None
        }),
{
    reveal_strlit("USE DATABASE ");
    reveal_strlit("DATABASE ");
    reveal_strlit("USE");
    reveal_strlit("DATABASE");
    reveal_strlit("use");
    reveal_strlit("database");
    let t = "USE DATABASE "@ + name;
    let rest = "DATABASE "@ + name;
    assert(t =~= "USE"@ + seq![' '] + rest);
    assert(rest =~= "DATABASE"@ + seq![' '] + name);
    words::first_cut("USE"@, rest, ' ');
    words::first_cut("DATABASE"@, name, ' ');
    words::trimmed_text_stays(rest);
    words::trimmed_text_stays(name);
    words::no_cut(name, ' ');
    words::no_cut(name, ';');
    assert(words::trimmed_of(name, '`') == name);
    assert(text::ascii_lower_all("USE"@) =~= text::ascii_lower_all("use"@));
    assert(text::ascii_lower_all("DATABASE"@) =~= text::ascii_lower_all("database"@));
}

/// A statement that fails is answered with one packet: 255, the code 1064 in two bytes,
/// a state, and the message. So is a text that is no statement; one without statements is
/// answered as one that changed nothing.
pub proof fn failures_are_answered_with_a_message(
    n: NumbersV,
    e: Seq<char>,
    f: crate::sql::error::ParseFailure,
    g: crate::sql::error::TokenFailure,
)
    ensures
        answer_payloads(n, Err(e)).len() == 1,
        is_failure(answer_payloads(n, Err(e))[0], e),
        run_of(Err(Error::Parse(f))) matches Err(b) && is_failure(
            b,
            crate::sql::error::parse_failure_text(f),
        ),
        run_of(Err(Error::Tokenize(g))) matches Err(b) && is_failure(
            b,
            crate::sql::error::token_failure_text(g),
        ),
        run_of(Ok(Seq::empty())) == Err::<Seq<SqlStatement>, Seq<u8>>(
            seq![0u8, 0u8, 0u8, 2u8, 0u8, 0u8, 0u8],
        ),
{
    crate::protocol::layout::error_carries_code_and_message(1064, e);
    crate::protocol::layout::error_carries_code_and_message(
        1064,
        crate::sql::error::parse_failure_text(f),
    );
    crate::protocol::layout::error_carries_code_and_message(
        1064,
        crate::sql::error::token_failure_text(g),
    );
    crate::protocol::layout::ok_starts_with_zero(0, 0, 2);
}

/// A packet tells of a failure: its code is 1064, and it ends with the message.
pub open spec fn is_failure(b: Seq<u8>, message: Seq<char>) -> bool {
    &&& b.len() >= 9
    &&& b[0] == 255
    &&& b[1] + 256 * b[2] == 1064
    &&& b.skip(9) == encode_utf8(message)
}

/// A session is in the database that its user changed to, and in the same one after any
/// other statement. The user stays.
pub proof fn only_use_changes_the_session(s: SessionV, r: ResultV)
    ensures
        session_after(s, r).user == s.user,
        session_after(s, r).database == (match r {
            ResultV::DatabaseChanged(db) => db,
            _ => s.database,
        }),
{
}

/// The packets of rows are the rows, one packet each, and so are those of columns.
pub proof fn each_row_is_one_packet(n: NumbersV, columns: Seq<ColumnV>, rows: Seq<RowV>)
    ensures
        column_payloads(columns).len() == columns.len(),
        row_payloads(n, rows).len() == rows.len(),
        forall|i: int|
            0 <= i < columns.len() ==> #[trigger] column_payloads(columns)[i]
                == resultset::column_bytes(columns[i]),
        forall|i: int|
            0 <= i < rows.len() ==> #[trigger] row_payloads(n, rows)[i] == resultset::row_bytes(
                n,
                rows[i].values,
            ),
{
}

} // verus!
