//! The commands of a client.

use vstd::prelude::*;

use crate::protocol::handshake::{COM_INIT_DB, COM_PING, COM_QUERY, COM_QUIT};
use crate::text;
use crate::text::utf8_text;

verus! {

/// A command.
#[derive(Debug)]
pub enum Command {
    Quit,
    InitDb(String),
    Query(String),
    Ping,
    /// Any other command, by its number, with what it holds.
    Unknown(u8, Vec<u8>),
}

/// What a `Command` stands for.
#[verifier::ext_equal]
pub enum CommandV {
    Quit,
    InitDb(Seq<char>),
    Query(Seq<char>),
    Ping,
    Unknown(u8, Seq<u8>),
}

impl View for Command {
    type V = CommandV;

    open spec fn view(&self) -> CommandV {
        match self {
            Command::Quit => CommandV::Quit,
            Command::InitDb(s) => CommandV::InitDb(s@),
            Command::Query(s) => CommandV::Query(s@),
            Command::Ping => CommandV::Ping,
            Command::Unknown(id, data) => CommandV::Unknown(*id, data@),
        }
    }
}

/// The command that a packet holds, or why it holds none.
pub open spec fn command_read(payload: Seq<u8>) -> Result<CommandV, Seq<char>> {
    if payload.len() == 0 {
        Err("empty command packet"@)
    } else {
        let data = payload.skip(1);
        if payload[0] == COM_QUIT {
            Ok(CommandV::Quit)
        } else if payload[0] == COM_INIT_DB {
            match text::utf8_read(data) {
                Ok(s) => Ok(CommandV::InitDb(s)),
                Err(e) => Err(e),
            }
        } else if payload[0] == COM_QUERY {
            match text::utf8_read(data) {
                Ok(s) => Ok(CommandV::Query(s)),
                Err(e) => Err(e),
            }
        } else if payload[0] == COM_PING {
            Ok(CommandV::Ping)
        } else {
            Ok(CommandV::Unknown(payload[0], data))
        }
    }
}

/// The command that a packet holds, or why it holds none.
pub fn parse_command(payload: &[u8]) -> (r: Result<Command, String>)
    ensures
        match r {
            Ok(c) => command_read(payload@) == Ok::<CommandV, Seq<char>>(c@),
            Err(e) => command_read(payload@) == Err::<CommandV, Seq<char>>(e@),
        },
{
    if payload.len() == 0 {
        return Err("empty command packet".to_string());
    }
    let id: u8 = payload[0];
    let data = vstd::slice::slice_subrange(payload, 1, payload.len());
    assert(data@ =~= payload@.skip(1));
    if id == COM_QUIT {
        Ok(Command::Quit)
    } else if id == COM_INIT_DB {
        match utf8_text(data) {
            Ok(s) => Ok(Command::InitDb(s)),
            Err(e) => Err(e),
        }
    } else if id == COM_QUERY {
        match utf8_text(data) {
            Ok(s) => Ok(Command::Query(s)),
            Err(e) => Err(e),
        }
    } else if id == COM_PING {
        Ok(Command::Ping)
    } else {
        let mut args: Vec<u8> = Vec::new();
        args.extend_from_slice(data);
        assert(args@ =~= data@);
        Ok(Command::Unknown(id, args))
    }
}

/// A command is told by its first byte: 1 ends the connection, 2 changes to the database
/// whose name follows, 3 holds a query, and 14 asks for a sign of life.
pub proof fn commands_are_told_by_their_first_byte(s: Seq<char>, id: u8, rest: Seq<u8>)
    ensures
        command_read(seq![1u8] + rest) == Ok::<CommandV, Seq<char>>(CommandV::Quit),
        command_read(seq![2u8] + vstd::utf8::encode_utf8(s)) == Ok::<CommandV, Seq<char>>(
            CommandV::InitDb(s),
        ),
        command_read(seq![3u8] + vstd::utf8::encode_utf8(s)) == Ok::<CommandV, Seq<char>>(
            CommandV::Query(s),
        ),
        command_read(seq![14u8] + rest) == Ok::<CommandV, Seq<char>>(CommandV::Ping),
        id != 1 && id != 2 && id != 3 && id != 14 ==> command_read(seq![id] + rest) == Ok::<
            CommandV,
            Seq<char>,
        >(CommandV::Unknown(id, rest)),
        command_read(Seq::empty()) is Err,
{
    let b = vstd::utf8::encode_utf8(s);
    vstd::utf8::encode_utf8_decode_utf8(s);
    vstd::utf8::encode_utf8_valid_utf8(s);
    assert((seq![2u8] + b).skip(1) =~= b);
    assert((seq![3u8] + b).skip(1) =~= b);
    assert((seq![id] + rest).skip(1) =~= rest);
}

} // verus!
