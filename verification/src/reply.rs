//! What the client makes of the packets that answer a query, one after the other.

use vstd::prelude::*;

use crate::client;
use crate::client::{
    is_end_of_rows, parse_column_def, parse_reply, parse_row, query_payload, Reply, ReplyV,
};
use crate::console;
use crate::console::QueryResult;
use crate::model;
use crate::protocol::frame::{Packet, PacketV};
use crate::protocol::handshake::COM_QUERY;

verus! {

broadcast use crate::model::group_views;

/// What a `QueryResult` stands for.
#[verifier::ext_equal]
pub enum AnswerV {
    Affected { affected_rows: u64, last_insert_id: u64 },
    Error { code: u16, message: Seq<char> },
    ResultSet { columns: Seq<Seq<u8>>, rows: Seq<Seq<Option<Seq<u8>>>> },
}

impl View for QueryResult {
    type V = AnswerV;

    open spec fn view(&self) -> AnswerV {
        match self {
            QueryResult::Affected { affected_rows, last_insert_id } => AnswerV::Affected {
                affected_rows: *affected_rows,
                last_insert_id: *last_insert_id,
            },
            QueryResult::Error { code, message } => AnswerV::Error { code: *code, message: message@ },
            QueryResult::ResultSet { columns, rows } => AnswerV::ResultSet {
                columns: model::views(columns@),
                rows: console::row_cells(rows@),
            },
        }
    }
}

/// How far a reply was read.
#[derive(Debug)]
pub enum ReplyState {
    /// The first packet is to come.
    Start,
    /// The packets of some more columns are to come.
    Columns { left: u64, columns: Vec<Vec<u8>> },
    /// The packet between the columns and the rows is to come.
    Gap { columns: Vec<Vec<u8>> },
    /// A row or the end of the rows is to come.
    Rows { columns: Vec<Vec<u8>>, rows: Vec<Vec<Option<Vec<u8>>>> },
    /// No packet is to come.
    Done,
    /// The first packet held nothing.
    Empty,
    /// A packet ended too early.
    Cut,
}

/// What a `ReplyState` stands for.
#[verifier::ext_equal]
pub enum StateV {
    Start,
    Columns { left: u64, columns: Seq<Seq<u8>> },
    Gap { columns: Seq<Seq<u8>> },
    Rows { columns: Seq<Seq<u8>>, rows: Seq<Seq<Option<Seq<u8>>>> },
    Done,
    Empty,
    Cut,
}

impl View for ReplyState {
    type V = StateV;

    open spec fn view(&self) -> StateV {
        match self {
            ReplyState::Start => StateV::Start,
            ReplyState::Columns { left, columns } => StateV::Columns {
                left: *left,
                columns: model::views(columns@),
            },
            ReplyState::Gap { columns } => StateV::Gap { columns: model::views(columns@) },
            ReplyState::Rows { columns, rows } => StateV::Rows {
                columns: model::views(columns@),
                rows: console::row_cells(rows@),
            },
            ReplyState::Done => StateV::Done,
            ReplyState::Empty => StateV::Empty,
            ReplyState::Cut => StateV::Cut,
        }
    }
}

/// So many columns are still to come behind some.
pub open spec fn awaiting(left: u64, columns: Seq<Seq<u8>>) -> StateV {
    if left == 0 {
        StateV::Gap { columns }
    } else {
        StateV::Columns { left, columns }
    }
}

/// What the first packet leads to.
pub open spec fn started(payload: Seq<u8>) -> (StateV, Option<AnswerV>) {
    match client::reply_read(payload) {
        None => (StateV::Cut, None),
        Some(ReplyV::Empty) => (StateV::Empty, None),
        Some(ReplyV::Affected { affected_rows, last_insert_id }) => (
            StateV::Done,
            Some(AnswerV::Affected { affected_rows, last_insert_id }),
        ),
        Some(ReplyV::Error { code, message }) => (
            StateV::Done,
            Some(AnswerV::Error { code, message }),
        ),
        Some(ReplyV::Columns(n)) => (awaiting(n, Seq::empty()), None),
    }
}

/// What a packet leads to: how far the reply is read then, and the answer where it
/// is complete.
pub open spec fn stepped(state: StateV, payload: Seq<u8>) -> (StateV, Option<AnswerV>) {
    match state {
        StateV::Start => started(payload),
        StateV::Columns { left, columns } => match client::column_name_read(payload) {
            None => (StateV::Cut, None),
            Some(name) => (
                awaiting(
                    if left == 0 {
                        0
                    } else {
                        (left - 1) as u64
                    },
                    columns.push(name),
                ),
                None,
            ),
        },
        StateV::Gap { columns } => (StateV::Rows { columns, rows: Seq::empty() }, None),
        StateV::Rows { columns, rows } => if client::ends_rows(payload) {
            (StateV::Done, Some(AnswerV::ResultSet { columns, rows }))
        } else {
            match client::cells_read(payload) {
                None => (StateV::Cut, None),
                Some(row) => (StateV::Rows { columns, rows: rows.push(row) }, None),
            }
        },
        StateV::Done => (StateV::Done, None),
        StateV::Empty => (StateV::Empty, None),
        StateV::Cut => (StateV::Cut, None),
    }
}

/// What packets lead to that are read one after the other until there is an answer.
pub open spec fn read_all(state: StateV, payloads: Seq<Seq<u8>>) -> (StateV, Option<AnswerV>)
    decreases payloads.len(),
{
    if payloads.len() == 0 {
        (state, None)
    } else {
        let before = read_all(state, payloads.drop_last());
        if before.1 is Some {
            before
        } else {
            stepped(before.0, payloads.last())
        }
    }
}

fn await_columns(left: u64, columns: Vec<Vec<u8>>) -> (r: ReplyState)
    ensures
        r@ == awaiting(left, model::views(columns@)),
{
    if left == 0 {
        ReplyState::Gap { columns }
    } else {
        ReplyState::Columns { left, columns }
    }
}

fn first_step(payload: &[u8]) -> (r: (ReplyState, Option<QueryResult>))
    ensures
        (r.0@, model::view_opt(r.1)) == started(payload@),
{
    match parse_reply(payload) {
        None => (ReplyState::Cut, None),
        Some(Reply::Empty) => (ReplyState::Empty, None),
        Some(Reply::Affected { affected_rows, last_insert_id }) => (
            ReplyState::Done,
            Some(QueryResult::Affected { affected_rows, last_insert_id }),
        ),
        Some(Reply::Error { code, message }) => (
            ReplyState::Done,
            Some(QueryResult::Error { code, message }),
        ),
        Some(Reply::Columns(n)) => {
            let columns: Vec<Vec<u8>> = Vec::new();
            assert(model::views(columns@) =~= Seq::<Seq<u8>>::empty());
            (await_columns(n, columns), None)
        },
    }
}

/// Takes the next packet of a reply. The result is there once the last packet was
/// taken.
pub fn next_step(state: ReplyState, payload: &[u8]) -> (r: (ReplyState, Option<QueryResult>))
    ensures
        (r.0@, model::view_opt(r.1)) == stepped(state@, payload@),
{
    match state {
        ReplyState::Start => first_step(payload),
        ReplyState::Columns { left, columns } => match parse_column_def(payload) {
            None => (ReplyState::Cut, None),
            Some(name) => {
                let mut columns = columns;
                let ghost before = model::views(columns@);
                let ghost added = name@;
                columns.push(name);
                assert(model::views(columns@) =~= before.push(added));
                let left: u64 = if left == 0 {
                    0
                } else {
                    left - 1
                };
                (await_columns(left, columns), None)
            },
        },
        ReplyState::Gap { columns } => {
            let rows: Vec<Vec<Option<Vec<u8>>>> = Vec::new();
            assert(console::row_cells(rows@) =~= Seq::<Seq<Option<Seq<u8>>>>::empty());
            (ReplyState::Rows { columns, rows }, None)
        },
        ReplyState::Rows { columns, rows } => {
            if is_end_of_rows(payload) {
                (ReplyState::Done, Some(QueryResult::ResultSet { columns, rows }))
            } else {
                match parse_row(payload) {
                    None => (ReplyState::Cut, None),
                    Some(row) => {
                        let mut rows = rows;
                        let ghost before = console::row_cells(rows@);
                        let ghost added = client::cells(row@);
                        rows.push(row);
                        assert(console::row_cells(rows@) =~= before.push(added));
                        (ReplyState::Rows { columns, rows }, None)
                    },
                }
            }
        },
        ReplyState::Done => (ReplyState::Done, None),
        ReplyState::Empty => (ReplyState::Empty, None),
        ReplyState::Cut => (ReplyState::Cut, None),
    }
}

/// The packet that sends a query: the first of an exchange.
pub fn query_packet(sql: &str) -> (r: Packet)
    ensures
        r@ == (PacketV { seq_id: 0, payload: seq![COM_QUERY] + vstd::utf8::encode_utf8(sql@) }),
{
    Packet { seq_id: 0, payload: query_payload(sql) }
}

} // verus!
