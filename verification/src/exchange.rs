//! The two sides understand each other: what the server writes the client reads,
//! and the other way round.

use vstd::prelude::*;
use vstd::utf8::*;

use crate::client;
use crate::client::{ReplyV, ServerV};
use crate::engine::executor::ResultV;
use crate::engine::storage::RowV;
use crate::engine::types;
use crate::engine::types::{ColumnV, NumbersV, Val};
use crate::le;
use crate::model;
use crate::protocol::handshake;
use crate::protocol::handshake::ResponseV;
use crate::protocol::lenenc;
use crate::protocol::resultset;
use crate::reply;
use crate::reply::{AnswerV, StateV};
use crate::server::connection;
use crate::text;

verus! {

// ---------------------------------------------------------------------------
// Texts that end with a zero byte
// ---------------------------------------------------------------------------

/// The text holds no character of code zero.
pub open spec fn has_no_zero(s: Seq<char>) -> bool {
    forall|i: int| 0 <= i < s.len() ==> (#[trigger] s[i]) as u32 != 0
}

proof fn lemma_scalar_bytes(u: u32)
    by (bit_vector)
    requires
        0 < u <= 0x10FFFF,
    ensures
        has_width_1_encoding(u) ==> leading_byte_width_1(u) != 0,
        leading_byte_width_2(u) != 0,
        leading_byte_width_3(u) != 0,
        leading_byte_width_4(u) != 0,
        last_continuation_byte(u) != 0,
        second_last_continuation_byte(u) != 0,
        third_last_continuation_byte(u) != 0,
{
}

proof fn lemma_no_zero_byte(s: Seq<char>)
    requires
        has_no_zero(s),
    ensures
        forall|i: int| 0 <= i < encode_utf8(s).len() ==> #[trigger] encode_utf8(s)[i] != 0,
    decreases s.len(),
{
    if s.len() > 0 {
        let c = s[0];
        let t = s.drop_first();
        assert forall|i: int| 0 <= i < t.len() implies (#[trigger] t[i]) as u32 != 0 by {
            assert(s[i + 1] as u32 != 0);
        }
        lemma_no_zero_byte(t);
        assert(c as u32 != 0);
        char_is_scalar(c);
        lemma_scalar_bytes(c as u32);
        let front = encode_scalar(c as u32);
        assert forall|i: int| 0 <= i < encode_utf8(s).len() implies #[trigger] encode_utf8(s)[i]
            != 0 by {
            if i >= front.len() {
                assert(encode_utf8(s)[i] == encode_utf8(t)[i - front.len()]);
            }
        }
    }
}

/// A text that ends with a zero byte is read from where it stands.
proof fn lemma_text_read(before: Seq<u8>, s: Seq<char>, after: Seq<u8>, missing: Seq<char>)
    requires
        has_no_zero(s),
    ensures
        handshake::text_from(
            before + handshake::terminated(s) + after,
            before.len() as int,
            missing,
        ) == Ok::<(Seq<char>, int), Seq<char>>(
            (s, (before.len() + handshake::terminated(s).len()) as int),
        ),
{
    let all = before + handshake::terminated(s) + after;
    let pos = before.len() as int;
    let rest = all.skip(pos);
    let n = encode_utf8(s).len() as int;
    lemma_no_zero_byte(s);
    assert forall|j: int| 0 <= j < n implies !(handshake::is_zero())(#[trigger] rest[j]) by {
        assert(rest[j] == encode_utf8(s)[j]);
    }
    assert(rest[n] == 0);
    model::lemma_first_is(rest, handshake::is_zero(), n);
    assert(all.subrange(pos, pos + n) =~= encode_utf8(s));
    encode_utf8_valid_utf8(s);
    encode_utf8_decode_utf8(s);
}

// ---------------------------------------------------------------------------
// The handshake
// ---------------------------------------------------------------------------

/// The client reads from the greeting what the server wrote.
pub proof fn greeting_is_understood(
    conn_id: u32,
    scramble: Seq<u8>,
    capabilities: u32,
    charset: u8,
)
    requires
        scramble.len() == 20,
        handshake::has_plugin_auth(capabilities),
        handshake::has_secure_connection(capabilities),
    ensures
        client::greeting_read(handshake::greeting_bytes(conn_id, scramble, capabilities, charset))
            matches Some(Ok(v)) && v.protocol_version == 10 && v.server_version == "srrdb 0.2.0"@
            && v.connection_id == conn_id && v.scramble == scramble && v.capabilities
            == capabilities && v.charset == charset,
{
    let bytes = handshake::greeting_bytes(conn_id, scramble, capabilities, charset);
    let version = "srrdb 0.2.0"@;
    reveal_strlit("srrdb 0.2.0");
    assert(has_no_zero(version));
    let first = seq![10u8];
    let named = handshake::terminated(version);
    let base = (1 + named.len()) as int;
    let after = bytes.skip(base);
    assert(bytes =~= first + named + after);
    lemma_text_read(first, version, after, "missing null terminator for server version"@);
    le::lemma_le_len(conn_id as nat, 4);
    le::lemma_le_len(capabilities as nat, 2);
    le::lemma_le_len(2, 2);
    le::lemma_le_len(capabilities as nat / 0x1_0000, 2);
    le::lemma_bounds();
    assert(bytes.subrange(base, base + 4) =~= le::le(conn_id as nat, 4));
    le::le_round_trip(conn_id as nat, 4);
    assert(bytes.subrange(base + 13, base + 15) =~= le::le(capabilities as nat, 2));
    lemma_low_bytes(capabilities as nat);
    assert(bytes.subrange(base + 18, base + 20) =~= le::le(capabilities as nat / 0x1_0000, 2));
    le::le_round_trip(capabilities as nat / 0x1_0000, 2);
    assert(client::capabilities_at(bytes, base) == capabilities);
    assert(bytes[base + 15] == charset);
    assert(bytes[base + 20] == 21);
    let found = client::scramble_at(bytes, base, capabilities);
    assert(found =~= scramble) by {
        assert forall|i: int| 0 <= i < 20 implies found[i] == scramble[i] by {
            if i < 8 {
                assert(bytes[base + 4 + i] == scramble.take(8)[i]);
            } else {
                assert(bytes[base + 31 + (i - 8)] == scramble.skip(8)[i - 8]);
            }
        }
    }
}

/// The lowest two bytes of a number give its remainder.
proof fn lemma_low_bytes(x: nat)
    ensures
        le::le_value(le::le(x, 2)) == x % 0x1_0000,
{
    reveal_with_fuel(le::le, 3);
    reveal_with_fuel(le::le_value, 3);
    let s = le::le(x, 2);
    assert(s =~= seq![(x % 256) as u8, ((x / 256) % 256) as u8]);
    assert(s.drop_first() =~= seq![((x / 256) % 256) as u8]);
    assert(s.drop_first().drop_first() =~= Seq::<u8>::empty());
}

/// What both sides can do has the flags that the client asks for and the server has.
proof fn lemma_common_capabilities(capabilities: u32)
    requires
        handshake::has_plugin_auth(capabilities),
        handshake::has_secure_connection(capabilities),
        capabilities & handshake::CLIENT_CONNECT_WITH_DB != 0,
    ensures
        ({
            let common = client::CLIENT_CAPABILITIES & capabilities;
            &&& common & handshake::CLIENT_SECURE_CONNECTION != 0
            &&& common & handshake::CLIENT_CONNECT_WITH_DB != 0
            &&& common & handshake::CLIENT_PLUGIN_AUTH != 0
        }),
{
    assert((((512u32 | 32768u32 | 524288u32 | 2097152u32 | 8192u32 | 8u32) & capabilities)
        & 32768u32 != 0) && (((512u32 | 32768u32 | 524288u32 | 2097152u32 | 8192u32 | 8u32)
        & capabilities) & 8u32 != 0) && (((512u32 | 32768u32 | 524288u32 | 2097152u32 | 8192u32
        | 8u32) & capabilities) & 524288u32 != 0)) by (bit_vector)
        requires
            capabilities & 524288u32 != 0,
            capabilities & 32768u32 != 0,
            capabilities & 8u32 != 0,
    ;
}

proof fn lemma_server_capabilities()
    ensures
        handshake::has_plugin_auth(connection::SERVER_CAPABILITIES),
        handshake::has_secure_connection(connection::SERVER_CAPABILITIES),
        connection::SERVER_CAPABILITIES & handshake::CLIENT_CONNECT_WITH_DB != 0,
{
    assert((512u32 | 32768u32 | 524288u32 | 8u32 | 131072u32 | 262144u32 | 1u32 | 8192u32)
        & 524288u32 != 0) by (bit_vector);
    assert((512u32 | 32768u32 | 524288u32 | 8u32 | 131072u32 | 262144u32 | 1u32 | 8192u32)
        & 32768u32 != 0) by (bit_vector);
    assert((512u32 | 32768u32 | 524288u32 | 8u32 | 131072u32 | 262144u32 | 1u32 | 8192u32) & 8u32
        != 0) by (bit_vector);
}

/// Where the parts of a response stand.
proof fn lemma_response_parts(
    a: Seq<u8>,
    b: Seq<u8>,
    c: Seq<u8>,
    z: Seq<u8>,
    name: Seq<u8>,
    length: Seq<u8>,
    auth: Seq<u8>,
    db: Seq<u8>,
    plugin: Seq<u8>,
)
    requires
        a.len() == 4,
        b.len() == 4,
        c.len() == 1,
        z.len() == 23,
        length.len() == 1,
    ensures
        ({
            let all = a + b + c + z + name + length + auth + db + plugin;
            let p1 = 32 + name.len() as int;
            let p2 = p1 + 1 + auth.len() as int;
            &&& all.len() >= 32
            &&& all.subrange(0, 4) == a
            &&& all.subrange(4, 8) == b
            &&& all[8] == c[0]
            &&& (a + b + c + z).len() == 32
            &&& all == (a + b + c + z) + name + (length + auth + db + plugin)
            &&& p1 < all.len()
            &&& all[p1] == length[0]
            &&& all.skip(p1).len() > 0
            &&& all.skip(p1)[0] == length[0]
            &&& p2 <= all.len()
            &&& all.subrange(p1 + 1, p2) == auth
            &&& (a + b + c + z + name + length + auth).len() == p2
            &&& all == (a + b + c + z + name + length + auth) + db + plugin
            &&& (a + b + c + z + name + length + auth + db).len() == p2 + db.len()
            &&& all == (a + b + c + z + name + length + auth + db) + plugin + Seq::<u8>::empty()
        }),
{
    let all = a + b + c + z + name + length + auth + db + plugin;
    let p1 = 32 + name.len() as int;
    let p2 = p1 + 1 + auth.len() as int;
    assert(all.subrange(0, 4) =~= a);
    assert(all.subrange(4, 8) =~= b);
    assert(all =~= (a + b + c + z) + name + (length + auth + db + plugin));
    assert(all.subrange(p1 + 1, p2) =~= auth);
    assert(all =~= (a + b + c + z + name + length + auth + db) + plugin + Seq::<u8>::empty());
}

/// The server reads from the client's response what the client wrote, if it can do
/// what the parts of the response ask for.
pub proof fn response_is_understood(server: ServerV, username: Seq<char>, password: Seq<char>)
    requires
        handshake::has_plugin_auth(server.capabilities),
        handshake::has_secure_connection(server.capabilities),
        server.capabilities & handshake::CLIENT_CONNECT_WITH_DB != 0,
        has_no_zero(username),
    ensures
        handshake::response_read(client::response_bytes(server, username, password)) == Some(
            Ok::<ResponseV, Seq<char>>(
                ResponseV {
                    capabilities: client::CLIENT_CAPABILITIES & server.capabilities,
                    max_packet_size: 16777215,
                    charset: 255,
                    username,
                    auth_response: client::auth_answer(password, server.scramble),
                    database: Some("srrdb"@),
                    auth_plugin: Some("mysql_native_password"@),
                },
            ),
        ),
{
    let caps = client::CLIENT_CAPABILITIES & server.capabilities;
    let bytes = client::response_bytes(server, username, password);
    let auth = client::auth_answer(password, server.scramble);
    let db = handshake::terminated("srrdb"@);
    let plugin = handshake::terminated("mysql_native_password"@);
    let name = handshake::terminated(username);
    let a = le::le(caps as nat, 4);
    let b = le::le(16777215, 4);
    let c = seq![255u8];
    let z = handshake::zeros(23);
    let length = seq![auth.len() as u8];
    lemma_common_capabilities(server.capabilities);
    reveal_strlit("srrdb");
    reveal_strlit("mysql_native_password");
    le::lemma_bounds();
    le::le_round_trip(caps as nat, 4);
    le::le_round_trip(16777215, 4);
    le::lemma_le_len(caps as nat, 4);
    le::lemma_le_len(16777215, 4);
    assert(auth.len() <= 20);
    lemma_response_parts(a, b, c, z, name, length, auth, db, plugin);
    let p1 = 32 + name.len() as int;
    let p2 = p1 + 1 + auth.len() as int;
    lemma_text_read(
        a + b + c + z,
        username,
        length + auth + db + plugin,
        "expected null-terminated username"@,
    );
    assert(lenenc::lenenc_read(bytes.skip(p1)) == Some((auth.len(), 1nat)));
    assert(handshake::answer_from(bytes, p1, caps) == Some(
        Ok::<(Seq<u8>, int), Seq<char>>((auth, p2)),
    ));
    assert(has_no_zero("srrdb"@));
    lemma_text_read(
        a + b + c + z + name + length + auth,
        "srrdb"@,
        plugin,
        "expected null-terminated database"@,
    );
    assert(has_no_zero("mysql_native_password"@));
    lemma_text_read(
        a + b + c + z + name + length + auth + db,
        "mysql_native_password"@,
        Seq::empty(),
        "expected null-terminated auth plugin"@,
    );
}

/// A client that answers the server's greeting with the password that the server asks
/// for is admitted.
pub proof fn right_password_is_admitted(
    scramble: Seq<u8>,
    username: Seq<char>,
    password: Seq<char>,
)
    requires
        scramble.len() == 20,
        has_no_zero(username),
        password.len() > 0,
    ensures
        ({
            let greeting = handshake::greeting_bytes(
                1,
                scramble,
                connection::SERVER_CAPABILITIES,
                45,
            );
            client::greeting_read(greeting) matches Some(Ok(server))
                && handshake::response_read(client::response_bytes(server, username, password))
                matches Some(Ok(response)) && response.username == username
                && connection::is_admitted(response, scramble, Some(password))
        }),
{
    lemma_server_capabilities();
    greeting_is_understood(1, scramble, connection::SERVER_CAPABILITIES, 45);
    let greeting = handshake::greeting_bytes(1, scramble, connection::SERVER_CAPABILITIES, 45);
    let server = client::greeting_read(greeting)->0->Ok_0;
    response_is_understood(server, username, password);
    handshake::right_answer_fits(encode_utf8(password), scramble);
}

// ---------------------------------------------------------------------------
// Replies
// ---------------------------------------------------------------------------

proof fn lemma_number_read(v: nat, rest: Seq<u8>)
    requires
        v <= u64::MAX,
    ensures
        client::number_read(lenenc::lenenc(v) + rest) == Some((v, lenenc::lenenc(v).len())),
        lenenc::lenenc(v).len() > 0,
        (lenenc::lenenc(v) + rest)[0] != 0xFB,
{
    lenenc::lenenc_round_trip(v, rest);
    assert((lenenc::lenenc(v) + rest)[0] == lenenc::lenenc(v)[0]);
}

/// The client reads from a short reply how many rows were affected and the last
/// number that was given.
pub proof fn ok_is_understood(affected_rows: u64, last_insert_id: u64, status: u16)
    ensures
        client::reply_read(handshake::ok_bytes(affected_rows, last_insert_id, status)) == Some(
            ReplyV::Affected { affected_rows, last_insert_id },
        ),
{
    let bytes = handshake::ok_bytes(affected_rows, last_insert_id, status);
    let a = lenenc::lenenc(affected_rows as nat);
    let b = lenenc::lenenc(last_insert_id as nat);
    let tail = le::le(status as nat, 2) + seq![0u8, 0u8];
    assert(bytes.skip(1) =~= a + (b + tail));
    lemma_number_read(affected_rows as nat, b + tail);
    assert(bytes.skip(1 + a.len() as int) =~= b + tail);
    lemma_number_read(last_insert_id as nat, tail);
}

/// The client reads from an error its number and, behind the general state, its text.
pub proof fn error_is_understood(code: u16, message: Seq<char>)
    ensures
        client::reply_read(handshake::err_bytes(code, message)) == Some(
            ReplyV::Error { code, message: text::lossy_text(encode_utf8("#HY000"@ + message)) },
        ),
{
    let bytes = handshake::err_bytes(code, message);
    le::lemma_bounds();
    le::le_round_trip(code as nat, 2);
    assert(bytes.subrange(1, 3) =~= le::le(code as nat, 2));
    text::lemma_encode_concat("#HY000"@, message);
    assert(bytes.skip(3) =~= encode_utf8("#HY000"@) + encode_utf8(message));
}

/// The client reads the number of columns of a result set.
pub proof fn column_count_is_understood(count: nat)
    requires
        0 < count < 0x100_0000,
    ensures
        client::reply_read(lenenc::lenenc(count)) == Some(ReplyV::Columns(count as u64)),
{
    lemma_number_read(count, Seq::empty());
    lenenc::lenenc_round_trip(count, Seq::empty());
    assert(lenenc::lenenc(count) + Seq::<u8>::empty() =~= lenenc::lenenc(count));
}

proof fn lemma_string_read(data: Seq<u8>, rest: Seq<u8>)
    requires
        data.len() <= u64::MAX,
    ensures
        client::string_read(lenenc::lenenc_bytes(data) + rest) == Some(
            (data, lenenc::lenenc_bytes(data).len()),
        ),
        lenenc::lenenc_bytes(data).len() > 0,
        (lenenc::lenenc_bytes(data) + rest)[0] != 0xFB,
{
    let n = lenenc::lenenc(data.len());
    let all = lenenc::lenenc_bytes(data) + rest;
    assert(all =~= n + (data + rest));
    lemma_number_read(data.len(), data + rest);
    assert(all.subrange(n.len() as int, (n.len() + data.len()) as int) =~= data);
}

proof fn lemma_skip_string(before: Seq<u8>, data: Seq<u8>, rest: Seq<u8>, count: nat)
    requires
        data.len() <= u64::MAX,
        client::behind_strings(before + lenenc::lenenc_bytes(data) + rest, count) == Some(
            before.len(),
        ),
    ensures
        client::behind_strings(before + lenenc::lenenc_bytes(data) + rest, count + 1) == Some(
            (before + lenenc::lenenc_bytes(data)).len(),
        ),
{
    let all = before + lenenc::lenenc_bytes(data) + rest;
    assert(all.skip(before.len() as int) =~= lenenc::lenenc_bytes(data) + rest);
    lemma_string_read(data, rest);
}

/// The ways in which six parts can be grouped.
proof fn lemma_six_parts(
    a: Seq<u8>,
    b: Seq<u8>,
    c: Seq<u8>,
    d: Seq<u8>,
    e: Seq<u8>,
    f: Seq<u8>,
)
    ensures
        ({
            let all = a + b + c + d + e + f;
            &&& all == Seq::<u8>::empty() + a + (b + c + d + e + f)
            &&& all == a + b + (c + d + e + f)
            &&& all == (a + b) + c + (d + e + f)
            &&& all == (a + b + c) + d + (e + f)
            &&& all.skip((a + b + c + d).len() as int) == e + f
        }),
{
    let all = a + b + c + d + e + f;
    assert(all =~= Seq::<u8>::empty() + a + (b + c + d + e + f));
    assert(all =~= a + b + (c + d + e + f));
    assert(all =~= (a + b) + c + (d + e + f));
    assert(all =~= (a + b + c) + d + (e + f));
    assert(all.skip((a + b + c + d).len() as int) =~= e + f);
}

/// The fifth of five strings is read.
proof fn lemma_fifth_string(
    d1: Seq<u8>,
    d2: Seq<u8>,
    d3: Seq<u8>,
    d4: Seq<u8>,
    d5: Seq<u8>,
    rest: Seq<u8>,
    bytes: Seq<u8>,
)
    requires
        d1.len() <= u64::MAX,
        d2.len() <= u64::MAX,
        d3.len() <= u64::MAX,
        d4.len() <= u64::MAX,
        d5.len() <= u64::MAX,
        bytes == lenenc::lenenc_bytes(d1) + lenenc::lenenc_bytes(d2) + lenenc::lenenc_bytes(d3)
            + lenenc::lenenc_bytes(d4) + lenenc::lenenc_bytes(d5) + rest,
    ensures
        client::column_name_read(bytes) == Some(d5),
{
    let e1 = lenenc::lenenc_bytes(d1);
    let e2 = lenenc::lenenc_bytes(d2);
    let e3 = lenenc::lenenc_bytes(d3);
    let e4 = lenenc::lenenc_bytes(d4);
    let e5 = lenenc::lenenc_bytes(d5);
    lemma_six_parts(e1, e2, e3, e4, e5, rest);
    assert(client::behind_strings(bytes, 0) == Some(Seq::<u8>::empty().len()));
    lemma_skip_string(Seq::empty(), d1, e2 + e3 + e4 + e5 + rest, 0);
    lemma_skip_string(e1, d2, e3 + e4 + e5 + rest, 1);
    lemma_skip_string(e1 + e2, d3, e4 + e5 + rest, 2);
    lemma_skip_string(e1 + e2 + e3, d4, e5 + rest, 3);
    lemma_string_read(d5, rest);
}

/// The client reads the name of a column.
pub proof fn column_is_understood(c: ColumnV)
    requires
        encode_utf8(c.table).len() <= u64::MAX,
        encode_utf8(c.name).len() <= u64::MAX,
    ensures
        client::column_name_read(resultset::column_bytes(c)) == Some(encode_utf8(c.name)),
{
    let bytes = resultset::column_bytes(c);
    assert(encode_utf8("def"@).len() <= u64::MAX && encode_utf8(""@).len() <= u64::MAX) by {
        reveal_strlit("def");
        reveal_strlit("");
        is_ascii_chars_encode_utf8("def"@);
        is_ascii_chars_encode_utf8(""@);
    }
    let front = resultset::text_bytes("def"@) + resultset::text_bytes(""@) + resultset::text_bytes(
        c.table,
    ) + resultset::text_bytes(c.table) + resultset::text_bytes(c.name);
    let name = resultset::text_bytes(c.name);
    let s1 = seq![0x0Cu8];
    let s2 = le::le(c.charset as nat, 2);
    let s3 = le::le(c.column_length as nat, 4);
    let s4 = seq![types::type_code(c.col_type)];
    let s5 = le::le(c.flags as nat, 2);
    let s6 = seq![c.decimals, 0u8, 0u8];
    let rest = name + s1 + s2 + s3 + s4 + s5 + s6;
    lemma_grouped(front, name, s1, s2, s3, s4, s5, s6);
    assert(bytes == front + rest);
    lemma_fifth_string(
        encode_utf8("def"@),
        encode_utf8(""@),
        encode_utf8(c.table),
        encode_utf8(c.table),
        encode_utf8(c.name),
        rest,
        bytes,
    );
}

/// Eight sequences one after the other are the first, and behind it the others.
proof fn lemma_grouped(
    a: Seq<u8>,
    b: Seq<u8>,
    c: Seq<u8>,
    d: Seq<u8>,
    e: Seq<u8>,
    f: Seq<u8>,
    g: Seq<u8>,
    h: Seq<u8>,
)
    ensures
        a + b + c + d + e + f + g + h == a + (b + c + d + e + f + g + h),
{
    assert(a + b + c + d + e + f + g + h =~= a + (b + c + d + e + f + g + h));
}

/// What the client gets of a value: nothing for NULL, a byte string as it is, and
/// anything else as its text.
pub open spec fn cell_of(n: NumbersV, v: Val) -> Option<Seq<u8>> {
    match v {
        Val::Null => None,
        Val::Bytes(b) => Some(b),
        _ => Some(encode_utf8(types::val_text(n, v))),
    }
}

pub open spec fn cells_of(n: NumbersV, values: Seq<Val>) -> Seq<Option<Seq<u8>>> {
    Seq::new(values.len(), |i: int| cell_of(n, values[i]))
}

/// The value can be written: its length fits.
pub open spec fn fits_packet(n: NumbersV, v: Val) -> bool {
    match cell_of(n, v) {
        Some(b) => b.len() <= u64::MAX,
        None => true,
    }
}

/// A value in front of a row is read as its first.
proof fn lemma_first_cell(n: NumbersV, v: Val, rest: Seq<u8>)
    requires
        fits_packet(n, v),
    ensures
        client::cells_read(resultset::value_bytes(n, v) + rest) == (match client::cells_read(rest) {
            Some(more) => Some(seq![cell_of(n, v)] + more),
            None => None,
        }),
{
    let one = resultset::value_bytes(n, v);
    let all = one + rest;
    match cell_of(n, v) {
        None => {
            assert(all.skip(1) =~= rest);
            assert(all[0] == 0xFB);
        },
        Some(b) => {
            assert(one == lenenc::lenenc_bytes(b));
            lemma_string_read(b, rest);
            assert(all.skip(one.len() as int) =~= rest);
        },
    }
}

proof fn lemma_cells_read(n: NumbersV, values: Seq<Val>, rest: Seq<u8>)
    requires
        forall|i: int| 0 <= i < values.len() ==> fits_packet(n, #[trigger] values[i]),
    ensures
        client::cells_read(resultset::row_bytes(n, values) + rest) == (match client::cells_read(
            rest,
        ) {
            Some(more) => Some(cells_of(n, values) + more),
            None => None,
        }),
    decreases values.len(),
{
    if values.len() == 0 {
        assert(resultset::row_bytes(n, values) + rest =~= rest);
        if let Some(more) = client::cells_read(rest) {
            assert(cells_of(n, values) + more =~= more);
        }
    } else {
        let before = values.drop_last();
        let v = values.last();
        assert forall|i: int| 0 <= i < before.len() implies fits_packet(n, #[trigger] before[i]) by {
            assert(fits_packet(n, values[i]));
        }
        assert(fits_packet(n, values[values.len() - 1]));
        let tail = resultset::value_bytes(n, v) + rest;
        lemma_cells_read(n, before, tail);
        lemma_first_cell(n, v, rest);
        assert(resultset::row_bytes(n, values) + rest =~= resultset::row_bytes(n, before) + tail);
        if let Some(more) = client::cells_read(rest) {
            assert(cells_of(n, before) + (seq![cell_of(n, v)] + more) =~= cells_of(n, values)
                + more);
        }
    }
}

/// The client reads from a row the values that the server wrote.
pub proof fn row_is_understood(n: NumbersV, values: Seq<Val>)
    requires
        forall|i: int| 0 <= i < values.len() ==> fits_packet(n, #[trigger] values[i]),
    ensures
        client::cells_read(resultset::row_bytes(n, values)) == Some(cells_of(n, values)),
{
    let none = Seq::<u8>::empty();
    lemma_cells_read(n, values, none);
    assert(resultset::row_bytes(n, values) + none =~= resultset::row_bytes(n, values));
    assert(cells_of(n, values) + Seq::<Option<Seq<u8>>>::empty() =~= cells_of(n, values));
}

// ---------------------------------------------------------------------------
// Whole replies
// ---------------------------------------------------------------------------

/// What packets lead to does not depend on how they are grouped.
proof fn lemma_read_on(state: StateV, a: Seq<Seq<u8>>, b: Seq<Seq<u8>>)
    requires
        reply::read_all(state, a).1 is None,
    ensures
        reply::read_all(state, a + b) == reply::read_all(reply::read_all(state, a).0, b),
    decreases b.len(),
{
    if b.len() == 0 {
        assert(a + b =~= a);
    } else {
        lemma_read_on(state, a, b.drop_last());
        assert((a + b).drop_last() =~= a + b.drop_last());
        assert((a + b).last() == b.last());
    }
}

/// One packet.
proof fn lemma_read_one(state: StateV, payload: Seq<u8>)
    ensures
        reply::read_all(state, seq![payload]) == reply::stepped(state, payload),
{
    let one = seq![payload];
    assert(one.drop_last() =~= Seq::<Seq<u8>>::empty());
    assert(one.last() == payload);
    assert(reply::read_all(state, one.drop_last()) == (state, None::<AnswerV>));
}

/// The names of columns, as they are sent.
pub open spec fn names_of(columns: Seq<ColumnV>) -> Seq<Seq<u8>> {
    Seq::new(columns.len(), |i: int| encode_utf8(columns[i].name))
}

/// The rows of a result set, as the client gets them.
pub open spec fn rows_got(n: NumbersV, list: Seq<RowV>) -> Seq<Seq<Option<Seq<u8>>>> {
    Seq::new(list.len(), |i: int| cells_of(n, list[i].values))
}

/// What the client gets of a result.
pub open spec fn answer_of(n: NumbersV, r: ResultV) -> AnswerV {
    match r {
        ResultV::Rows { columns, list } => if columns.len() == 0 {
            AnswerV::Affected { affected_rows: 0, last_insert_id: 0 }
        } else {
            AnswerV::ResultSet { columns: names_of(columns), rows: rows_got(n, list) }
        },
        ResultV::Affected { count, last_insert_id } => AnswerV::Affected {
            affected_rows: count,
            last_insert_id,
        },
        ResultV::DatabaseChanged(_) => AnswerV::Affected { affected_rows: 0, last_insert_id: 0 },
        ResultV::Done => AnswerV::Affected { affected_rows: 0, last_insert_id: 0 },
    }
}

/// A result can be sent: a result set has less than 65536 columns and as many values
/// in each row, and each packet holds less than 16 MiB.
pub open spec fn can_be_sent(n: NumbersV, r: ResultV) -> bool {
    &&& r matches ResultV::Rows { columns, list } ==> columns.len() < 0x1_0000 && (forall|i: int|
        0 <= i < list.len() ==> (#[trigger] list[i]).values.len() == columns.len())
    &&& forall|i: int|
        0 <= i < connection::reply_payloads(n, r).len() ==> (#[trigger] connection::reply_payloads(
            n,
            r,
        )[i]).len() < 0x100_0000
}

proof fn lemma_column_fits(c: ColumnV)
    requires
        resultset::column_bytes(c).len() < 0x100_0000,
    ensures
        encode_utf8(c.table).len() < 0x100_0000,
        encode_utf8(c.name).len() < 0x100_0000,
{
}

proof fn lemma_value_front(n: NumbersV, v: Val)
    requires
        resultset::value_bytes(n, v).len() < 0x100_0000,
    ensures
        fits_packet(n, v),
        resultset::value_bytes(n, v).len() > 0,
        resultset::value_bytes(n, v)[0] != 0xFE,
{
    if let Some(b) = cell_of(n, v) {
        assert(resultset::value_bytes(n, v) == lenenc::lenenc_bytes(b));
        assert(b.len() < 0x100_0000);
        lemma_number_read(b.len(), Seq::empty());
        assert(lenenc::lenenc_bytes(b)[0] == lenenc::lenenc(b.len())[0]);
    }
}

/// The packet of a row does not look like the end of the rows.
proof fn lemma_row_front(n: NumbersV, values: Seq<Val>)
    requires
        values.len() > 0,
        resultset::row_bytes(n, values).len() < 0x100_0000,
    ensures
        forall|i: int| 0 <= i < values.len() ==> fits_packet(n, #[trigger] values[i]),
        !client::ends_rows(resultset::row_bytes(n, values)),
    decreases values.len(),
{
    let before = values.drop_last();
    let last = values[values.len() - 1];
    let first = resultset::row_bytes(n, before);
    let all = resultset::row_bytes(n, values);
    assert(all == first + resultset::value_bytes(n, last));
    lemma_value_front(n, last);
    if before.len() == 0 {
        assert(first.len() == 0);
        assert(all[0] == resultset::value_bytes(n, last)[0]);
    } else {
        lemma_row_front(n, before);
        assert(all[0] == first[0]);
    }
    assert forall|i: int| 0 <= i < values.len() implies fits_packet(n, #[trigger] values[i]) by {
        if i < before.len() {
            assert(before[i] == values[i]);
        }
    }
}

/// The packets of some columns are read.
proof fn lemma_columns_read(columns: Seq<ColumnV>, m: int)
    requires
        0 <= m <= columns.len() < 0x1_0000,
        forall|i: int|
            0 <= i < columns.len() ==> resultset::column_bytes(#[trigger] columns[i]).len()
                < 0x100_0000,
    ensures
        reply::read_all(
            reply::awaiting(columns.len() as u64, Seq::empty()),
            connection::column_payloads(columns).take(m),
        ) == (
            reply::awaiting((columns.len() - m) as u64, names_of(columns).take(m)),
            None::<AnswerV>,
        ),
    decreases m,
{
    let start = reply::awaiting(columns.len() as u64, Seq::empty());
    let payloads = connection::column_payloads(columns);
    if m == 0 {
        assert(payloads.take(0) =~= Seq::<Seq<u8>>::empty());
        assert(names_of(columns).take(0) =~= Seq::<Seq<u8>>::empty());
    } else {
        lemma_columns_read(columns, m - 1);
        assert(payloads.take(m).drop_last() =~= payloads.take(m - 1));
        assert(payloads.take(m).last() == resultset::column_bytes(columns[m - 1]));
        lemma_column_fits(columns[m - 1]);
        column_is_understood(columns[m - 1]);
        assert(names_of(columns).take(m) =~= names_of(columns).take(m - 1).push(
            encode_utf8(columns[m - 1].name),
        ));
    }
}

/// The packets of some rows are read.
proof fn lemma_rows_read(n: NumbersV, columns: Seq<Seq<u8>>, list: Seq<RowV>, m: int)
    requires
        0 <= m <= list.len(),
        forall|i: int|
            0 <= i < list.len() ==> (#[trigger] list[i]).values.len() > 0 && resultset::row_bytes(
                n,
                list[i].values,
            ).len() < 0x100_0000,
    ensures
        reply::read_all(
            StateV::Rows { columns, rows: Seq::empty() },
            connection::row_payloads(n, list).take(m),
        ) == (StateV::Rows { columns, rows: rows_got(n, list).take(m) }, None::<AnswerV>),
    decreases m,
{
    let payloads = connection::row_payloads(n, list);
    if m == 0 {
        assert(payloads.take(0) =~= Seq::<Seq<u8>>::empty());
        assert(rows_got(n, list).take(0) =~= Seq::<Seq<Option<Seq<u8>>>>::empty());
    } else {
        lemma_rows_read(n, columns, list, m - 1);
        let values = list[m - 1].values;
        assert(payloads.take(m).drop_last() =~= payloads.take(m - 1));
        assert(payloads.take(m).last() == resultset::row_bytes(n, values));
        lemma_row_front(n, values);
        row_is_understood(n, values);
        assert(rows_got(n, list).take(m) =~= rows_got(n, list).take(m - 1).push(
            cells_of(n, values),
        ));
    }
}

/// Where the packets of a result set stand.
proof fn lemma_set_parts(
    count: Seq<u8>,
    columns: Seq<Seq<u8>>,
    end: Seq<u8>,
    rows: Seq<Seq<u8>>,
)
    ensures
        ({
            let all = seq![count] + columns + seq![end] + rows + seq![end];
            let front = seq![count] + (columns + (seq![end] + rows));
            &&& all == front + seq![end]
            &&& all.drop_last() == front
            &&& all.last() == end
            &&& forall|i: int| 0 <= i < columns.len() ==> #[trigger] columns[i] == all[1 + i]
            &&& forall|i: int|
                0 <= i < rows.len() ==> #[trigger] rows[i] == all[2 + columns.len() + i]
        }),
{
    let all = seq![count] + columns + seq![end] + rows + seq![end];
    let front = seq![count] + (columns + (seq![end] + rows));
    assert(all =~= front + seq![end]);
    assert(all.drop_last() =~= front);
}

/// A result set is read: all packets but the last lead to its rows.
proof fn lemma_set_read(n: NumbersV, columns: Seq<ColumnV>, list: Seq<RowV>)
    requires
        columns.len() > 0,
        can_be_sent(n, ResultV::Rows { columns, list }),
    ensures
        reply::read_all(
            StateV::Start,
            connection::reply_payloads(n, ResultV::Rows { columns, list }).drop_last(),
        ) == (
            StateV::Rows { columns: names_of(columns), rows: rows_got(n, list) },
            None::<AnswerV>,
        ),
        connection::reply_payloads(n, ResultV::Rows { columns, list }).last()
            == handshake::eof_bytes(),
{
    let r = ResultV::Rows { columns, list };
    let all = connection::reply_payloads(n, r);
    let count = lenenc::lenenc(columns.len());
    let c = connection::column_payloads(columns);
    let end = handshake::eof_bytes();
    let l = connection::row_payloads(n, list);
    lemma_set_parts(count, c, end, l);
    assert forall|i: int| 0 <= i < columns.len() implies resultset::column_bytes(
        #[trigger] columns[i],
    ).len() < 0x100_0000 by {
        assert(c[i] == all[1 + i]);
    }
    assert forall|i: int| 0 <= i < list.len() implies (#[trigger] list[i]).values.len() > 0
        && resultset::row_bytes(n, list[i].values).len() < 0x100_0000 by {
        assert(l[i] == all[2 + c.len() + i]);
    }
    column_count_is_understood(columns.len());
    lemma_read_one(StateV::Start, count);
    let waiting = reply::awaiting(columns.len() as u64, Seq::empty());
    lemma_columns_read(columns, columns.len() as int);
    assert(c.take(columns.len() as int) =~= c);
    let names = names_of(columns);
    assert(names.take(columns.len() as int) =~= names);
    let gap = StateV::Gap { columns: names };
    lemma_read_one(gap, end);
    lemma_rows_read(n, names, list, list.len() as int);
    assert(l.take(list.len() as int) =~= l);
    assert(rows_got(n, list).take(list.len() as int) =~= rows_got(n, list));
    lemma_read_on(gap, seq![end], l);
    lemma_read_on(waiting, c, seq![end] + l);
    lemma_read_on(StateV::Start, seq![count], c + (seq![end] + l));
}

/// While there is no answer after some packets, there was none before.
proof fn lemma_no_answer_before(state: StateV, payloads: Seq<Seq<u8>>, k: int)
    requires
        0 <= k <= payloads.len(),
        reply::read_all(state, payloads).1 is None,
    ensures
        reply::read_all(state, payloads.take(k)).1 is None,
    decreases payloads.len(),
{
    if k == payloads.len() {
        assert(payloads.take(k) =~= payloads);
    } else {
        lemma_no_answer_before(state, payloads.drop_last(), k);
        assert(payloads.drop_last().take(k) =~= payloads.take(k));
    }
}

/// The client reads from the packets that answer a statement what the statement gave:
/// of a result set the names of the columns and the values of each row, in their
/// order. It has the answer with the last packet, and not before.
pub proof fn result_is_understood(n: NumbersV, r: ResultV)
    requires
        can_be_sent(n, r),
    ensures
        reply::read_all(StateV::Start, connection::reply_payloads(n, r)) == (
            StateV::Done,
            Some(answer_of(n, r)),
        ),
        forall|k: int|
            0 <= k < connection::reply_payloads(n, r).len() ==> (#[trigger] reply::read_all(
                StateV::Start,
                connection::reply_payloads(n, r).take(k),
            )).1 is None,
{
    let all = connection::reply_payloads(n, r);
    let front = all.drop_last();
    let set = match r {
        ResultV::Rows { columns, list } => columns.len() > 0,
        _ => false,
    };
    if set {
        if let ResultV::Rows { columns, list } = r {
            lemma_set_read(n, columns, list);
        }
    } else {
        assert(front =~= Seq::<Seq<u8>>::empty());
        let (affected_rows, last_insert_id) = match r {
            ResultV::Affected { count, last_insert_id } => (count, last_insert_id),
            _ => (0u64, 0u64),
        };
        ok_is_understood(affected_rows, last_insert_id, handshake::SERVER_STATUS_AUTOCOMMIT);
    }
    assert forall|k: int| 0 <= k < all.len() implies (#[trigger] reply::read_all(
        StateV::Start,
        all.take(k),
    )).1 is None by {
        lemma_no_answer_before(StateV::Start, front, k);
        assert(front.take(k) =~= all.take(k));
    }
}

/// The client reads from the packet that answers a statement that failed the number
/// of the error and, behind the general state, its text.
pub proof fn failure_is_understood(code: u16, message: Seq<char>)
    ensures
        reply::read_all(StateV::Start, seq![handshake::err_bytes(code, message)]) == (
            StateV::Done,
            Some(
                AnswerV::Error { code, message: text::lossy_text(encode_utf8("#HY000"@ + message)) },
            ),
        ),
{
    error_is_understood(code, message);
    lemma_read_one(StateV::Start, handshake::err_bytes(code, message));
}

/// The response of a client: what it can do, its packet size, its character set, unused
/// bytes, and the name of the user. The answer stands behind its length where the client
/// can send it so, and else ends with zero; a database and the name of the way to prove a
/// password follow where the client says so.
pub open spec fn response_form(v: ResponseV, unused: Seq<u8>) -> Seq<u8> {
    let bits = v.capabilities as int;
    le::le(v.capabilities as nat, 4) + le::le(v.max_packet_size as nat, 4) + seq![v.charset]
        + unused + encode_utf8(v.username) + seq![0u8] + (if bits / 2097152 % 2 == 1 || bits
        / 32768 % 2 == 1 {
        seq![v.auth_response.len() as u8] + v.auth_response
    } else {
        v.auth_response + seq![0u8]
    }) + (match v.database {
        Some(s) => encode_utf8(s) + seq![0u8],
        None => Seq::empty(),
    }) + (match v.auth_plugin {
        Some(s) => encode_utf8(s) + seq![0u8],
        None => Seq::empty(),
    })
}

/// The server reads the response of any client: each thing from its place.
#[verifier::spinoff_prover]
#[verifier::rlimit(30)]
pub proof fn response_is_read_by_places(v: ResponseV, unused: Seq<u8>)
    requires
        unused.len() == 23,
        has_no_zero(v.username),
        v.auth_response.len() < 251,
        forall|i: int| 0 <= i < v.auth_response.len() ==> #[trigger] v.auth_response[i] != 0,
        v.database is Some <==> v.capabilities as int / 8 % 2 == 1,
        v.auth_plugin is Some <==> v.capabilities as int / 524288 % 2 == 1,
        v.database matches Some(s) ==> has_no_zero(s),
        v.auth_plugin matches Some(s) ==> has_no_zero(s),
    ensures
        handshake::response_read(response_form(v, unused)) == Some(
            Ok::<ResponseV, Seq<char>>(v),
        ),
{
    let caps = v.capabilities;
    let none = Seq::<u8>::empty();
    let bits = caps as int;
    let front = le::le(caps as nat, 4) + le::le(v.max_packet_size as nat, 4) + seq![v.charset]
        + unused;
    let name = handshake::terminated(v.username);
    let answer = if bits / 2097152 % 2 == 1 || bits / 32768 % 2 == 1 {
        seq![v.auth_response.len() as u8] + v.auth_response
    } else {
        v.auth_response + seq![0u8]
    };
    let db = match v.database {
        Some(s) => handshake::terminated(s),
        None => none,
    };
    let plugin = match v.auth_plugin {
        Some(s) => handshake::terminated(s),
        None => none,
    };
    le::lemma_bounds();
    le::le_round_trip(caps as nat, 4);
    le::le_round_trip(v.max_packet_size as nat, 4);
    lemma_form_start(front, caps, v.max_packet_size, v.charset, unused);
    lemma_form_parts(front, name, answer, db, plugin);
    lemma_name_ends(front, v.username, answer, db, plugin);
    lemma_text_read(
        front,
        v.username,
        answer + db + plugin,
        "expected null-terminated username"@,
    );
    lemma_answer_read(front + name, v.auth_response, caps, db + plugin);
    lemma_database_read(front + name + answer, v.database, caps, plugin);
    lemma_plugin_read(front + name + answer + db, v.auth_plugin, caps);
}

proof fn lemma_name_ends(
    front: Seq<u8>,
    username: Seq<char>,
    answer: Seq<u8>,
    db: Seq<u8>,
    plugin: Seq<u8>,
)
    ensures
        front + encode_utf8(username) + seq![0u8] + answer + db + plugin == front
            + handshake::terminated(username) + answer + db + plugin,
{
    assert(front + encode_utf8(username) + seq![0u8] =~= front + handshake::terminated(username));
}

proof fn lemma_form_parts(
    front: Seq<u8>,
    name: Seq<u8>,
    answer: Seq<u8>,
    db: Seq<u8>,
    plugin: Seq<u8>,
)
    requires
        front.len() == 32,
    ensures
        ({
            let all = front + name + answer + db + plugin;
            &&& all.len() >= 32
            &&& all == front + name + (answer + db + plugin)
            &&& all == front + name + answer + (db + plugin)
            &&& all.subrange(0, 4) == front.subrange(0, 4)
            &&& all.subrange(4, 8) == front.subrange(4, 8)
            &&& all[8] == front[8]
        }),
{
    let all = front + name + answer + db + plugin;
    assert(all =~= front + name + (answer + db + plugin));
    assert(all =~= front + name + answer + (db + plugin));
    assert(all.subrange(0, 4) =~= front.subrange(0, 4));
    assert(all.subrange(4, 8) =~= front.subrange(4, 8));
}

proof fn lemma_database_read(
    before: Seq<u8>,
    database: Option<Seq<char>>,
    caps: u32,
    after: Seq<u8>,
)
    requires
        database is Some <==> caps as int / 8 % 2 == 1,
        database matches Some(s) ==> has_no_zero(s),
    ensures
        ({
            let db = match database {
                Some(s) => handshake::terminated(s),
                None => Seq::empty(),
            };
            handshake::database_from(before + db + after, before.len() as int, caps) == Ok::<
                (Option<Seq<char>>, int),
                Seq<char>,
            >((database, before.len() + db.len() as int))
        }),
{
    lemma_bits(caps);
    match database {
        Some(s) => lemma_text_read(before, s, after, "expected null-terminated database"@),
        None => {},
    }
}

proof fn lemma_plugin_read(before: Seq<u8>, plugin: Option<Seq<char>>, caps: u32)
    requires
        plugin is Some <==> caps as int / 524288 % 2 == 1,
        plugin matches Some(s) ==> has_no_zero(s),
    ensures
        ({
            let named = match plugin {
                Some(s) => handshake::terminated(s),
                None => Seq::empty(),
            };
            handshake::plugin_from(before + named, before.len() as int, caps) == Ok::<
                Option<Seq<char>>,
                Seq<char>,
            >(plugin)
        }),
{
    let none = Seq::<u8>::empty();
    lemma_bits(caps);
    match plugin {
        Some(s) => {
            lemma_text_read(before, s, none, "expected null-terminated auth plugin"@);
            assert(before + handshake::terminated(s) + none =~= before + handshake::terminated(s));
        },
        None => {},
    }
}

proof fn lemma_bits(caps: u32)
    ensures
        caps & handshake::CLIENT_PLUGIN_AUTH_LENENC_CLIENT_DATA != 0 <==> caps as int / 2097152 % 2
            == 1,
        handshake::has_secure_connection(caps) <==> caps as int / 32768 % 2 == 1,
        handshake::has_plugin_auth(caps) <==> caps as int / 524288 % 2 == 1,
        caps & handshake::CLIENT_CONNECT_WITH_DB != 0 <==> caps as int / 8 % 2 == 1,
{
    assert(caps & 2097152 != 0 <==> caps / 2097152 % 2 == 1) by (bit_vector);
    assert(caps & 32768 != 0 <==> caps / 32768 % 2 == 1) by (bit_vector);
    assert(caps & 524288 != 0 <==> caps / 524288 % 2 == 1) by (bit_vector);
    assert(caps & 8 != 0 <==> caps / 8 % 2 == 1) by (bit_vector);
}

proof fn lemma_form_start(front: Seq<u8>, caps: u32, size: u32, charset: u8, unused: Seq<u8>)
    requires
        unused.len() == 23,
        front == le::le(caps as nat, 4) + le::le(size as nat, 4) + seq![charset] + unused,
    ensures
        front.len() == 32,
        front.subrange(0, 4) == le::le(caps as nat, 4),
        front.subrange(4, 8) == le::le(size as nat, 4),
        front[8] == charset,
{
    le::lemma_le_len(caps as nat, 4);
    le::lemma_le_len(size as nat, 4);
    assert(front.subrange(0, 4) =~= le::le(caps as nat, 4));
    assert(front.subrange(4, 8) =~= le::le(size as nat, 4));
}

proof fn lemma_answer_read(before: Seq<u8>, auth: Seq<u8>, caps: u32, after: Seq<u8>)
    requires
        auth.len() < 251,
        forall|i: int| 0 <= i < auth.len() ==> #[trigger] auth[i] != 0,
    ensures
        ({
            let bits = caps as int;
            let answer = if bits / 2097152 % 2 == 1 || bits / 32768 % 2 == 1 {
                seq![auth.len() as u8] + auth
            } else {
                auth + seq![0u8]
            };
            handshake::answer_from(before + answer + after, before.len() as int, caps) == Some(
                Ok::<(Seq<u8>, int), Seq<char>>((auth, before.len() + answer.len() as int)),
            )
        }),
{
    let bits = caps as int;
    let counted = bits / 2097152 % 2 == 1 || bits / 32768 % 2 == 1;
    let answer = if counted {
        seq![auth.len() as u8] + auth
    } else {
        auth + seq![0u8]
    };
    let all = before + answer + after;
    let pos = before.len() as int;
    let n = auth.len() as int;
    lemma_bits(caps);
    if counted {
        assert(all.skip(pos)[0] == auth.len() as u8);
        assert(all[pos] == auth.len() as u8);
        assert(all.subrange(pos + 1, pos + 1 + n) =~= auth);
    } else {
        let rest = all.skip(pos);
        assert forall|j: int| 0 <= j < n implies !(handshake::is_zero())(#[trigger] rest[j]) by {
            assert(rest[j] == auth[j]);
        }
        assert(rest[n] == 0);
        model::lemma_first_is(rest, handshake::is_zero(), n);
        assert(all.subrange(pos, pos + n) =~= auth);
    }
}

} // verus!
