//! The client: its part of the handshake, what it reads of the server's replies,
//! and what it makes of the lines that are typed.

use vstd::prelude::*;
use vstd::utf8::*;

use crate::le;
use crate::model;
use crate::protocol::handshake;
use crate::protocol::handshake::{
    compute_auth_response, find_zero, push_zeros, text_at, CLIENT_CONNECT_WITH_DB,
    CLIENT_PLUGIN_AUTH, CLIENT_PLUGIN_AUTH_LENENC_CLIENT_DATA, CLIENT_PROTOCOL_41,
    CLIENT_SECURE_CONNECTION, CLIENT_TRANSACTIONS, COM_QUERY,
};
use crate::protocol::lenenc;
use crate::protocol::lenenc::read_lenenc;
use crate::text;
use crate::text::{utf8_lossy, utf8_text};
use crate::words;

verus! {

broadcast use crate::model::group_views;

// ---------------------------------------------------------------------------
// The handshake
// ---------------------------------------------------------------------------

/// What the server greets the client with.
#[derive(Debug)]
pub struct ServerHandshake {
    pub protocol_version: u8,
    pub server_version: String,
    pub connection_id: u32,
    pub scramble: [u8; 20],
    pub capabilities: u32,
    pub charset: u8,
    pub auth_plugin: Option<String>,
}

/// What a `ServerHandshake` stands for.
#[verifier::ext_equal]
pub struct ServerV {
    pub protocol_version: u8,
    pub server_version: Seq<char>,
    pub connection_id: u32,
    pub scramble: Seq<u8>,
    pub capabilities: u32,
    pub charset: u8,
    pub auth_plugin: Option<Seq<char>>,
}

impl View for ServerHandshake {
    type V = ServerV;

    open spec fn view(&self) -> ServerV {
        ServerV {
            protocol_version: self.protocol_version,
            server_version: self.server_version@,
            connection_id: self.connection_id,
            scramble: self.scramble@,
            capabilities: self.capabilities,
            charset: self.charset,
            auth_plugin: model::view_opt(self.auth_plugin),
        }
    }
}

/// What the server can do: two bytes, and three bytes further on two more.
pub open spec fn capabilities_at(bytes: Seq<u8>, base: int) -> u32 {
    (le::le_value(bytes.subrange(base + 13, base + 15)) + 0x1_0000 * le::le_value(
        bytes.subrange(base + 18, base + 20),
    )) as u32
}

/// The length that the greeting gives for the second part of the scramble.
pub open spec fn second_part(bytes: Seq<u8>, base: int, capabilities: u32) -> int {
    if !handshake::has_plugin_auth(capabilities) || bytes[base + 20] < 9 {
        0
    } else {
        bytes[base + 20] - 9
    }
}

/// The scramble: eight bytes, and at most twelve of its second part, where the
/// greeting has it; what is missing is zero.
pub open spec fn scramble_at(bytes: Seq<u8>, base: int, capabilities: u32) -> Seq<u8> {
    let front = bytes.subrange(base + 4, base + 12);
    let n = second_part(bytes, base, capabilities);
    if handshake::has_secure_connection(capabilities) && n > 0 && base + 31 + n <= bytes.len() {
        let k = if n < 12 {
            n
        } else {
            12
        };
        front + bytes.subrange(base + 31, base + 31 + k) + handshake::zeros((12 - k) as nat)
    } else {
        front + handshake::zeros(12)
    }
}

/// The text from the place of the second part of the scramble up to the next zero
/// byte or the end, where it is one.
pub open spec fn plugin_at(bytes: Seq<u8>, base: int, capabilities: u32) -> Option<Seq<char>> {
    let pos = base + 31;
    if handshake::has_plugin_auth(capabilities) && pos < bytes.len() {
        let n = match handshake::zero_from(bytes, pos) {
            Some(n) => n,
            None => bytes.len() - pos,
        };
        match text::utf8_read(bytes.subrange(pos, pos + n)) {
            Ok(s) => Some(s),
            Err(_) => None,
        }
    } else {
        None
    }
}

/// The greeting that a packet holds, or why it holds none. There is neither where
/// the packet ends too early.
pub open spec fn greeting_read(bytes: Seq<u8>) -> Option<Result<ServerV, Seq<char>>> {
    if bytes.len() == 0 {
        None
    } else {
        match handshake::text_from(bytes, 1, "missing null terminator for server version"@) {
            Err(e) => Some(Err(e)),
            Ok((server_version, base)) => if bytes.len() < base + 20 {
                None
            } else {
                let capabilities = capabilities_at(bytes, base);
                if handshake::has_plugin_auth(capabilities) && bytes.len() < base + 21 {
                    None
                } else {
                    Some(
                        Ok(
                            ServerV {
                                protocol_version: bytes[0],
                                server_version,
                                connection_id: le::le_value(bytes.subrange(base, base + 4)) as u32,
                                scramble: scramble_at(bytes, base, capabilities),
                                capabilities,
                                charset: bytes[base + 15],
                                auth_plugin: plugin_at(bytes, base, capabilities),
                            },
                        ),
                    )
                }
            },
        }
    }
}

fn scramble_from(bytes: &[u8], base: usize, capabilities: u32) -> (r: [u8; 20])
    requires
        base + 20 <= bytes.len(),
        handshake::has_plugin_auth(capabilities) ==> base + 21 <= bytes.len(),
    ensures
        r@ == scramble_at(bytes@, base as int, capabilities),
{
    let mut out: [u8; 20] = [0u8;20];
    let mut i: usize = 0;
    while i < 8
        invariant
            base + 20 <= bytes.len(),
            i <= 8,
            forall|j: int| 0 <= j < i ==> out@[j] == bytes@[base + 4 + j],
            forall|j: int| i <= j < 20 ==> out@[j] == 0,
        decreases 8 - i,
    {
        out[i] = bytes[base + 4 + i];
        i = i + 1;
    }
    let mut n: usize = 0;
    if capabilities & CLIENT_PLUGIN_AUTH != 0 && bytes[base + 20] >= 9 {
        n = bytes[base + 20] as usize - 9;
    }
    let mut k: usize = 0;
    if capabilities & CLIENT_SECURE_CONNECTION != 0 && n > 0 && bytes.len() - base >= 31 && n
        <= bytes.len() - base - 31 {
        k = if n < 12 {
            n
        } else {
            12
        };
    }
    let mut j: usize = 0;
    while j < k
        invariant
            k <= 12,
            j <= k,
            k > 0 ==> base + 31 + k <= bytes.len(),
            forall|m: int| 0 <= m < 8 ==> out@[m] == bytes@[base + 4 + m],
            forall|m: int| 8 <= m < 8 + j ==> out@[m] == bytes@[base + 31 + (m - 8)],
            forall|m: int| 8 + j <= m < 20 ==> out@[m] == 0,
        decreases k - j,
    {
        out[8 + j] = bytes[base + 31 + j];
        j = j + 1;
    }
    assert(out@ =~= scramble_at(bytes@, base as int, capabilities));
    out
}

fn plugin_from(bytes: &[u8], base: usize, capabilities: u32) -> (r: Option<String>)
    requires
        base <= bytes.len(),
    ensures
        model::view_opt(r) == plugin_at(bytes@, base as int, capabilities),
{
    if capabilities & CLIENT_PLUGIN_AUTH == 0 || bytes.len() - base <= 31 {
        return None;
    }
    let pos: usize = base + 31;
    let n: usize = match find_zero(bytes, pos) {
        Some(n) => n,
        None => bytes.len() - pos,
    };
    match utf8_text(vstd::slice::slice_subrange(bytes, pos, pos + n)) {
        Ok(s) => Some(s),
        Err(_) => None,
    }
}

/// The greeting that a packet holds, or why it holds none; nothing where the packet
/// ends too early.
pub fn parse_server_handshake(payload: &[u8]) -> (r: Option<Result<ServerHandshake, String>>)
    ensures
        match r {
            Some(Ok(v)) => greeting_read(payload@) == Some(Ok::<ServerV, Seq<char>>(v@)),
            Some(Err(e)) => greeting_read(payload@) == Some(Err::<ServerV, Seq<char>>(e@)),
            None => greeting_read(payload@) is None,
        },
{
    if payload.len() == 0 {
        return None;
    }
    let (server_version, base) = match text_at(
        payload,
        1,
        "missing null terminator for server version",
    ) {
        Ok(found) => found,
        Err(e) => {
            return Some(Err(e));
        },
    };
    if payload.len() - base < 20 {
        return None;
    }
    let connection_id: u32 = le::read_le(payload, base, 4) as u32;
    let low: u64 = le::read_le(payload, base + 13, 2);
    let high: u64 = le::read_le(payload, base + 18, 2);
    proof {
        le::le_value_round_trip(payload@.subrange(base + 13, base + 15));
        le::le_value_round_trip(payload@.subrange(base + 18, base + 20));
        le::lemma_bounds();
    }
    let capabilities: u32 = (low + 0x1_0000 * high) as u32;
    assert(capabilities == capabilities_at(payload@, base as int));
    if capabilities & CLIENT_PLUGIN_AUTH != 0 && payload.len() - base < 21 {
        return None;
    }
    let scramble = scramble_from(payload, base, capabilities);
    let auth_plugin = plugin_from(payload, base, capabilities);
    Some(
        Ok(
            ServerHandshake {
                protocol_version: payload[0],
                server_version,
                connection_id,
                scramble,
                capabilities,
                charset: payload[base + 15],
                auth_plugin,
            },
        ),
    )
}

/// What the client can do.
pub const CLIENT_CAPABILITIES: u32 = CLIENT_PROTOCOL_41 | CLIENT_SECURE_CONNECTION
    | CLIENT_PLUGIN_AUTH | CLIENT_PLUGIN_AUTH_LENENC_CLIENT_DATA | CLIENT_TRANSACTIONS
    | CLIENT_CONNECT_WITH_DB;

/// The answer to the scramble; without a password it is empty.
pub open spec fn auth_answer(password: Seq<char>, scramble: Seq<u8>) -> Seq<u8> {
    if password.len() == 0 {
        Seq::empty()
    } else {
        handshake::password_answer(encode_utf8(password), scramble)
    }
}

/// The bytes that the client answers the greeting with.
pub open spec fn response_bytes(server: ServerV, username: Seq<char>, password: Seq<char>) -> Seq<
    u8,
> {
    let auth = auth_answer(password, server.scramble);
    le::le((CLIENT_CAPABILITIES & server.capabilities) as nat, 4) + le::le(16777215, 4)
        + seq![255u8] + handshake::zeros(23) + handshake::terminated(username) + seq![
        auth.len() as u8,
    ] + auth + handshake::terminated("srrdb"@) + handshake::terminated("mysql_native_password"@)
}

/// The client's answer to the greeting.
pub fn build_handshake_response(handshake: &ServerHandshake, username: &str, password: &str) -> (r:
    Vec<u8>)
    ensures
        r@ == response_bytes(handshake@, username@, password@),
{
    let caps: u32 = CLIENT_CAPABILITIES & handshake.capabilities;
    let mut p: Vec<u8> = Vec::new();
    le::push_le(&mut p, caps as u64, 4);
    le::push_le(&mut p, 16777215, 4);
    p.push(255);
    push_zeros(&mut p, 23);
    p.extend_from_slice(username.as_bytes());
    p.push(0);
    let auth: Vec<u8> = if words::is_empty(password) {
        Vec::new()
    } else {
        compute_auth_response(password.as_bytes(), handshake.scramble.as_slice())
    };
    assert(auth@ =~= auth_answer(password@, handshake@.scramble));
    p.push(auth.len() as u8);
    p.extend_from_slice(auth.as_slice());
    p.extend_from_slice("srrdb".as_bytes());
    p.push(0);
    p.extend_from_slice("mysql_native_password".as_bytes());
    p.push(0);
    assert(p@ =~= response_bytes(handshake@, username@, password@));
    p
}

/// The packet that sends a query.
pub fn query_payload(sql: &str) -> (r: Vec<u8>)
    ensures
        r@ == seq![COM_QUERY] + encode_utf8(sql@),
{
    let mut p: Vec<u8> = Vec::new();
    p.push(COM_QUERY);
    p.extend_from_slice(sql.as_bytes());
    assert(p@ =~= seq![COM_QUERY] + encode_utf8(sql@));
    p
}

// ---------------------------------------------------------------------------
// Replies
// ---------------------------------------------------------------------------

/// The number that bytes start with and how many bytes it takes. The mark for NULL
/// counts as zero. There is none where its bytes are cut off.
pub open spec fn number_read(data: Seq<u8>) -> Option<(nat, nat)> {
    if data.len() > 0 && data[0] == 0xFB {
        Some((0, 1))
    } else {
        lenenc::lenenc_read(data)
    }
}

/// The string that bytes start with and how many bytes it takes with its length.
pub open spec fn string_read(data: Seq<u8>) -> Option<(Seq<u8>, nat)> {
    match number_read(data) {
        None => None,
        Some((len, n)) => if n + len <= data.len() {
            Some((data.subrange(n as int, (n + len) as int), n + len))
        } else {
            None
        },
    }
}

/// The place behind some strings.
pub open spec fn behind_strings(data: Seq<u8>, count: nat) -> Option<nat>
    decreases count,
{
    if count == 0 {
        Some(0)
    } else {
        match behind_strings(data, (count - 1) as nat) {
            None => None,
            Some(p) => match string_read(data.skip(p as int)) {
                None => None,
                Some((_, n)) => Some(p + n),
            },
        }
    }
}

/// The name of a column: the fifth string of its packet.
pub open spec fn column_name_read(data: Seq<u8>) -> Option<Seq<u8>> {
    match behind_strings(data, 4) {
        None => None,
        Some(p) => match string_read(data.skip(p as int)) {
            None => None,
            Some((name, _)) => Some(name),
        },
    }
}

/// The values of a row: for each a string, or nothing for NULL.
pub open spec fn cells_read(data: Seq<u8>) -> Option<Seq<Option<Seq<u8>>>>
    decreases data.len(),
{
    if data.len() == 0 {
        Some(Seq::empty())
    } else if data[0] == 0xFB {
        match cells_read(data.skip(1)) {
            None => None,
            Some(rest) => Some(seq![None::<Seq<u8>>] + rest),
        }
    } else {
        match string_read(data) {
            None => None,
            Some((s, n)) => if 0 < n <= data.len() {
                match cells_read(data.skip(n as int)) {
                    None => None,
                    Some(rest) => Some(seq![Some(s)] + rest),
                }
            } else {
                None
            },
        }
    }
}

/// The first packet of a reply.
#[derive(Debug)]
pub enum Reply {
    /// It holds nothing.
    Empty,
    /// All went well.
    Affected { affected_rows: u64, last_insert_id: u64 },
    Error { code: u16, message: String },
    /// A result set of so many columns follows.
    Columns(u64),
}

/// What a `Reply` stands for.
#[verifier::ext_equal]
pub enum ReplyV {
    Empty,
    Affected { affected_rows: u64, last_insert_id: u64 },
    Error { code: u16, message: Seq<char> },
    Columns(u64),
}

impl View for Reply {
    type V = ReplyV;

    open spec fn view(&self) -> ReplyV {
        match self {
            Reply::Empty => ReplyV::Empty,
            Reply::Affected { affected_rows, last_insert_id } => ReplyV::Affected {
                affected_rows: *affected_rows,
                last_insert_id: *last_insert_id,
            },
            Reply::Error { code, message } => ReplyV::Error { code: *code, message: message@ },
            Reply::Columns(n) => ReplyV::Columns(*n),
        }
    }
}

/// What the first packet of a reply says. There is nothing where the packet ends too
/// early.
pub open spec fn reply_read(payload: Seq<u8>) -> Option<ReplyV> {
    if payload.len() == 0 {
        Some(ReplyV::Empty)
    } else if payload[0] == 0 {
        match number_read(payload.skip(1)) {
            None => None,
            Some((rows, n)) => match number_read(payload.skip(1 + n as int)) {
                None => None,
                Some((id, _)) => Some(
                    ReplyV::Affected { affected_rows: rows as u64, last_insert_id: id as u64 },
                ),
            },
        }
    } else if payload[0] == 0xFF {
        if payload.len() < 3 {
            None
        } else {
            Some(
                ReplyV::Error {
                    code: le::le_value(payload.subrange(1, 3)) as u16,
                    message: text::lossy_text(payload.skip(3)),
                },
            )
        }
    } else if payload[0] == 0xFE {
        Some(ReplyV::Affected { affected_rows: 0, last_insert_id: 0 })
    } else {
        match number_read(payload) {
            None => None,
            Some((n, _)) => Some(ReplyV::Columns(n as u64)),
        }
    }
}

/// The packet ends the rows of a result set.
pub open spec fn ends_rows(payload: Seq<u8>) -> bool {
    payload.len() == 0 || payload[0] == 0xFE
}

fn read_number(data: &[u8], pos: usize) -> (r: Option<(u64, usize)>)
    requires
        pos <= data.len(),
    ensures
        match r {
            Some((v, n)) => number_read(data@.skip(pos as int)) == Some((v as nat, n as nat)) && pos
                + n <= data.len() && (pos < data.len() ==> n > 0),
            None => number_read(data@.skip(pos as int)) is None,
        },
{
    if pos < data.len() {
        assert(data@.skip(pos as int)[0] == data@[pos as int]);
        if data[pos] == 0xFB {
            return Some((0, 1));
        }
    }
    read_lenenc(data, pos)
}

fn read_string(data: &[u8], pos: usize) -> (r: Option<(Vec<u8>, usize)>)
    requires
        pos <= data.len(),
    ensures
        match r {
            Some((s, n)) => string_read(data@.skip(pos as int)) == Some((s@, n as nat)) && pos + n
                <= data.len() && (pos < data.len() ==> n > 0),
            None => string_read(data@.skip(pos as int)) is None,
        },
{
    match read_number(data, pos) {
        None => None,
        Some((len, n)) => {
            let start: usize = pos + n;
            if len > (data.len() - start) as u64 {
                return None;
            }
            let end: usize = start + len as usize;
            let mut out: Vec<u8> = Vec::new();
            out.extend_from_slice(vstd::slice::slice_subrange(data, start, end));
            assert(out@ =~= data@.skip(pos as int).subrange(n as int, n + len));
            Some((out, end - pos))
        },
    }
}

/// The name of the column that a packet defines; nothing where the packet ends too
/// early.
pub fn parse_column_def(data: &[u8]) -> (r: Option<Vec<u8>>)
    ensures
        model::view_opt(r) == column_name_read(data@),
{
    let mut pos: usize = 0;
    let mut i: usize = 0;
    while i < 4
        invariant
            i <= 4,
            pos <= data.len(),
            behind_strings(data@, i as nat) == Some(pos as nat),
        decreases 4 - i,
    {
        match read_string(data, pos) {
            None => {
                proof {
                    lemma_no_strings(data@, (i + 1) as nat, 4);
                }
                return None;
            },
            Some((_, n)) => {
                pos = pos + n;
            },
        }
        i = i + 1;
    }
    match read_string(data, pos) {
        None => None,
        Some((name, _)) => Some(name),
    }
}

proof fn lemma_no_strings(data: Seq<u8>, i: nat, n: nat)
    requires
        i <= n,
        behind_strings(data, i) is None,
    ensures
        behind_strings(data, n) is None,
    decreases n - i,
{
    if i < n {
        lemma_no_strings(data, i, (n - 1) as nat);
    }
}

/// What a row stands for.
pub open spec fn cells(row: Seq<Option<Vec<u8>>>) -> Seq<Option<Seq<u8>>> {
    Seq::new(row.len(), |i: int| model::view_opt(row[i]))
}

/// The values of a row; nothing where the packet ends too early.
pub fn parse_row(data: &[u8]) -> (r: Option<Vec<Option<Vec<u8>>>>)
    ensures
        match r {
            Some(row) => cells_read(data@) == Some(cells(row@)),
            None => cells_read(data@) is None,
        },
{
    let mut row: Vec<Option<Vec<u8>>> = Vec::new();
    let mut pos: usize = 0;
    proof {
        assert(data@.skip(0) =~= data@);
        if let Some(all) = cells_read(data@) {
            assert(cells(row@) + all =~= all);
        }
    }
    while pos < data.len()
        invariant
            pos <= data.len(),
            match cells_read(data@.skip(pos as int)) {
                Some(rest) => cells_read(data@) == Some(cells(row@) + rest),
                None => cells_read(data@) is None,
            },
        decreases data.len() - pos,
    {
        let ghost rest = data@.skip(pos as int);
        let ghost before = cells(row@);
        assert(rest[0] == data@[pos as int]);
        if data[pos] == 0xFB {
            row.push(None);
            pos = pos + 1;
            assert(rest.skip(1) =~= data@.skip(pos as int));
            assert(cells(row@) =~= before.push(None));
            proof {
                if let Some(more) = cells_read(data@.skip(pos as int)) {
                    assert(before.push(None) + more =~= before + (seq![None::<Seq<u8>>] + more));
                }
            }
        } else {
            match read_string(data, pos) {
                None => {
                    return None;
                },
                Some((s, n)) => {
                    let ghost v = s@;
                    row.push(Some(s));
                    assert(rest.skip(n as int) =~= data@.skip(pos + n));
                    pos = pos + n;
                    assert(cells(row@) =~= before.push(Some(v)));
                    proof {
                        if let Some(more) = cells_read(data@.skip(pos as int)) {
                            assert(before.push(Some(v)) + more =~= before + (seq![Some(v)] + more));
                        }
                    }
                },
            }
        }
    }
    assert(data@.skip(pos as int) =~= Seq::<u8>::empty());
    assert(cells(row@) + Seq::<Option<Seq<u8>>>::empty() =~= cells(row@));
    Some(row)
}

/// What the first packet of a reply says; nothing where the packet ends too early.
pub fn parse_reply(payload: &[u8]) -> (r: Option<Reply>)
    ensures
        model::view_opt(r) == reply_read(payload@),
{
    if payload.len() == 0 {
        return Some(Reply::Empty);
    }
    let first: u8 = payload[0];
    if first == 0 {
        match read_number(payload, 1) {
            None => None,
            Some((affected_rows, n)) => match read_number(payload, 1 + n) {
                None => None,
                Some((last_insert_id, _)) => Some(
                    Reply::Affected { affected_rows, last_insert_id },
                ),
            },
        }
    } else if first == 0xFF {
        if payload.len() < 3 {
            return None;
        }
        let code: u16 = le::read_le(payload, 1, 2) as u16;
        let rest = vstd::slice::slice_subrange(payload, 3, payload.len());
        assert(rest@ =~= payload@.skip(3));
        Some(Reply::Error { code, message: utf8_lossy(rest) })
    } else if first == 0xFE {
        Some(Reply::Affected { affected_rows: 0, last_insert_id: 0 })
    } else {
        assert(payload@.skip(0) =~= payload@);
        match read_number(payload, 0) {
            None => None,
            Some((n, _)) => Some(Reply::Columns(n)),
        }
    }
}

/// Whether a packet ends the rows of a result set.
pub fn is_end_of_rows(payload: &[u8]) -> (r: bool)
    ensures
        r == ends_rows(payload@),
{
    payload.len() == 0 || payload[0] == 0xFE
}

/// The client tells a reply by its first byte: zero for changed rows, 255 for an error with
/// its code, 254 for a result without rows, and else the number of columns. Rows end with
/// an empty packet or one that starts with 254.
pub proof fn replies_are_told_by_their_first_byte(a: u8, b: u8, rest: Seq<u8>)
    ensures
        a < 251 && b < 251 ==> reply_read(seq![0u8, a, b] + rest) == Some(
            ReplyV::Affected { affected_rows: a as u64, last_insert_id: b as u64 },
        ),
        reply_read(seq![255u8, a, b] + rest) == Some(
            ReplyV::Error { code: (a + 256 * b) as u16, message: text::lossy_text(rest) },
        ),
        reply_read(seq![254u8] + rest) == Some(
            ReplyV::Affected { affected_rows: 0, last_insert_id: 0 },
        ),
        0 < a < 251 ==> reply_read(seq![a] + rest) == Some(ReplyV::Columns(a as u64)),
        reply_read(Seq::empty()) == Some(ReplyV::Empty),
        ends_rows(Seq::empty()),
        ends_rows(seq![a] + rest) <==> a == 254,
{
    let changed = seq![0u8, a, b] + rest;
    let wrong = seq![255u8, a, b] + rest;
    let none = Seq::<u8>::empty();
    assert(changed.skip(1)[0] == a);
    assert(changed.skip(2)[0] == b);
    assert(wrong.subrange(1, 3) =~= seq![a] + (seq![b] + none));
    le::bytes_count_by_place(b, none);
    le::bytes_count_by_place(a, seq![b] + none);
    assert(wrong.skip(3) =~= rest);
    assert((seq![254u8] + rest)[0] == 254);
    assert((seq![a] + rest)[0] == a);
}

} // verus!
