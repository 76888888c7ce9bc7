//! Where things stand in the packets of the protocol.

use vstd::prelude::*;
use vstd::utf8::*;

use crate::engine::types;
use crate::engine::types::{ColumnV, NumbersV, Val};
use crate::le;
use crate::protocol::handshake;
use crate::protocol::lenenc;
use crate::protocol::resultset;

verus! {

/// What a client or server can do is told by single bits.
pub proof fn abilities_are_bits(capabilities: u32)
    ensures
        handshake::has_plugin_auth(capabilities) <==> capabilities as int / 524288 % 2 == 1,
        handshake::has_secure_connection(capabilities) <==> capabilities as int / 32768 % 2 == 1,
{
    assert(capabilities & 524288 != 0 <==> capabilities / 524288 % 2 == 1) by (bit_vector);
    assert(capabilities & 32768 != 0 <==> capabilities / 32768 % 2 == 1) by (bit_vector);
}

/// A reply without rows starts with zero. The numbers of changed rows and of the last row
/// follow, each in one byte where it is small, then the status and two bytes of zero.
pub proof fn ok_starts_with_zero(affected: u64, last: u64, status: u16)
    ensures
        handshake::ok_bytes(affected, last, status)[0] == 0,
        affected < 251 && last < 251 ==> handshake::ok_bytes(affected, last, status) == seq![
            0u8,
            affected as u8,
            last as u8,
            (status as int % 256) as u8,
            (status as int / 256) as u8,
            0u8,
            0u8,
        ],
{
    le::lowest_byte_comes_first(status as nat);
    if affected < 251 && last < 251 {
        assert(handshake::ok_bytes(affected, last, status) =~= seq![
            0u8,
            affected as u8,
            last as u8,
            (status as int % 256) as u8,
            (status as int / 256) as u8,
            0u8,
            0u8,
        ]);
    }
}

/// An error starts with 255 and its code. A mark with a state follows, and then the
/// message to the end.
pub proof fn error_carries_code_and_message(code: u16, message: Seq<char>)
    ensures
        ({
            let b = handshake::err_bytes(code, message);
            &&& b.len() >= 9
            &&& b.take(9) == seq![
                255u8,
                (code as int % 256) as u8,
                (code as int / 256) as u8,
                35u8,
                72u8,
                89u8,
                48u8,
                48u8,
                48u8,
            ]
            &&& b.skip(9) == encode_utf8(message)
        }),
{
    let b = handshake::err_bytes(code, message);
    reveal_strlit("#HY000");
    is_ascii_chars_encode_utf8("#HY000"@);
    le::lowest_byte_comes_first(code as nat);
    assert(b.take(9) =~= seq![
        255u8,
        (code as int % 256) as u8,
        (code as int / 256) as u8,
        35u8,
        72u8,
        89u8,
        48u8,
        48u8,
        48u8,
    ]);
    assert(b.skip(9) =~= encode_utf8(message));
}

/// The greeting holds the version of the protocol, the name of the server, the number of
/// the connection, the first part of the scramble, what the server can do, the character
/// set and the status, each at its place. The second part of the scramble and the name of
/// the way to prove a password follow where the server can use them.
pub proof fn greeting_has_its_places(
    conn_id: u32,
    scramble: Seq<u8>,
    capabilities: u32,
    charset: u8,
)
    requires
        scramble.len() == 20,
    ensures
        ({
            let b = handshake::greeting_bytes(conn_id, scramble, capabilities, charset);
            let secure = capabilities as int / 32768 % 2 == 1;
            let named = capabilities as int / 524288 % 2 == 1;
            &&& b.len() >= 44
            &&& b[0] == 10
            &&& b.subrange(1, 12) == encode_utf8("srrdb 0.2.0"@)
            &&& b[12] == 0
            &&& le::le_value(b.subrange(13, 17)) == conn_id
            &&& b.subrange(17, 25) == scramble.take(8)
            &&& b[25] == 0
            &&& le::le_value(b.subrange(26, 28)) == capabilities as int % 65536
            &&& b[28] == charset
            &&& b[29] == 2 && b[30] == 0
            &&& le::le_value(b.subrange(31, 33)) == capabilities as int / 65536
            &&& b[33] == (if named {
                21u8
            } else {
                0u8
            })
            &&& forall|i: int| 34 <= i < 44 ==> b[i] == 0
            &&& secure ==> b.len() >= 57 && b.subrange(44, 56) == scramble.skip(8) && b[56] == 0
            &&& named ==> b.last() == 0 && b.subrange(
                if secure {
                    57
                } else {
                    44
                },
                b.len() - 1,
            ) == encode_utf8("mysql_native_password"@)
        }),
{
    let b = handshake::greeting_bytes(conn_id, scramble, capabilities, charset);
    let version = "srrdb 0.2.0"@;
    abilities_are_bits(capabilities);
    reveal_strlit("srrdb 0.2.0");
    is_ascii_chars_encode_utf8(version);
    le::lemma_bounds();
    le::lemma_le_len(conn_id as nat, 4);
    le::lemma_le_len(capabilities as nat, 2);
    le::lemma_le_len(capabilities as nat / 0x1_0000, 2);
    le::lowest_byte_comes_first(2);
    le::le_round_trip(conn_id as nat, 4);
    le::le_round_trip(capabilities as nat / 0x1_0000, 2);
    lemma_low_half(capabilities as nat);
    let front = handshake::greeting_front(conn_id, scramble, capabilities, charset);
    assert(front.subrange(1, 12) =~= encode_utf8(version));
    assert(front.subrange(13, 17) =~= le::le(conn_id as nat, 4));
    assert(front.subrange(17, 25) =~= scramble.take(8));
    assert(front.subrange(26, 28) =~= le::le(capabilities as nat, 2));
    assert(front.subrange(31, 33) =~= le::le(capabilities as nat / 0x1_0000, 2));
    assert(front[29] == le::le(2, 2)[0] && front[30] == le::le(2, 2)[1]);
    assert(front.len() == 33);
    assert(b.take(33) =~= front);
    assert(b.subrange(1, 12) =~= front.subrange(1, 12));
    assert(b.subrange(13, 17) =~= front.subrange(13, 17));
    assert(b.subrange(17, 25) =~= front.subrange(17, 25));
    assert(b.subrange(26, 28) =~= front.subrange(26, 28));
    assert(b.subrange(31, 33) =~= front.subrange(31, 33));
    assert(b[12] == front[12] && b[25] == front[25] && b[28] == front[28]);
    assert(b[29] == front[29] && b[30] == front[30]);
    if handshake::has_secure_connection(capabilities) {
        assert(b.subrange(44, 56) =~= scramble.skip(8));
        if handshake::has_plugin_auth(capabilities) {
            assert(b.subrange(57, b.len() - 1) =~= encode_utf8("mysql_native_password"@));
        }
    } else if handshake::has_plugin_auth(capabilities) {
        assert(b.subrange(44, b.len() - 1) =~= encode_utf8("mysql_native_password"@));
    }
}

proof fn lemma_low_half(x: nat)
    ensures
        le::le_value(le::le(x, 2)) == x % 65536,
{
    le::lowest_byte_comes_first(x);
    let low = (x % 256) as u8;
    let high = (x / 256 % 256) as u8;
    let none = Seq::<u8>::empty();
    le::bytes_count_by_place(high, none);
    le::bytes_count_by_place(low, seq![high]);
    assert(seq![high] + none =~= seq![high]);
    assert(seq![low] + seq![high] =~= seq![low, high]);
}

/// A packet that describes a column ends with the length of what follows, the character
/// set, the length, the type, the flags, the decimals and two bytes of zero.
pub proof fn column_packet_ends_with_properties(c: ColumnV)
    ensures
        ({
            let b = resultset::column_bytes(c);
            let n = b.len() as int;
            &&& n >= 13
            &&& b[n - 13] == 12
            &&& le::le_value(b.subrange(n - 12, n - 10)) == c.charset
            &&& le::le_value(b.subrange(n - 10, n - 6)) == c.column_length
            &&& b[n - 6] == types::type_code(c.col_type)
            &&& le::le_value(b.subrange(n - 5, n - 3)) == c.flags
            &&& b[n - 3] == c.decimals
            &&& b[n - 2] == 0 && b[n - 1] == 0
            &&& b.take(5) == seq![3u8, 100u8, 101u8, 102u8, 0u8]
        }),
{
    let b = resultset::column_bytes(c);
    let n = b.len() as int;
    let front = resultset::column_names_bytes(c);
    le::lemma_bounds();
    le::le_round_trip(c.charset as nat, 2);
    le::le_round_trip(c.column_length as nat, 4);
    le::le_round_trip(c.flags as nat, 2);
    assert(b.subrange(n - 12, n - 10) =~= le::le(c.charset as nat, 2));
    assert(b.subrange(n - 10, n - 6) =~= le::le(c.column_length as nat, 4));
    assert(b.subrange(n - 5, n - 3) =~= le::le(c.flags as nat, 2));
    reveal_strlit("def");
    reveal_strlit("");
    is_ascii_chars_encode_utf8("def"@);
    is_ascii_chars_encode_utf8(""@);
    assert(resultset::text_bytes("def"@) =~= seq![3u8, 100u8, 101u8, 102u8]);
    assert(resultset::text_bytes(""@) =~= seq![0u8]);
    assert(b.take(5) =~= seq![3u8, 100u8, 101u8, 102u8, 0u8]);
}

/// A row holds its values one after the other: NULL as the byte 251, a short text behind
/// the number of its bytes, and an integer as its decimal text.
pub proof fn row_holds_values_in_order(n: NumbersV, a: Seq<Val>, b: Seq<Val>, s: Seq<char>, k: i64)
    ensures
        resultset::row_bytes(n, a + b) == resultset::row_bytes(n, a) + resultset::row_bytes(n, b),
        resultset::row_bytes(n, Seq::empty()) == Seq::<u8>::empty(),
        resultset::row_bytes(n, seq![Val::Null]) == seq![251u8],
        encode_utf8(s).len() < 251 ==> resultset::row_bytes(n, seq![Val::Text(s)]) == seq![
            encode_utf8(s).len() as u8,
        ] + encode_utf8(s),
        resultset::row_bytes(n, seq![Val::Int(k)]) == resultset::row_bytes(
            n,
            seq![Val::Text(crate::text::int_text(k as int))],
        ),
    decreases b.len(),
{
    lemma_one_value(n, Val::Null);
    lemma_one_value(n, Val::Text(s));
    lemma_one_value(n, Val::Int(k));
    lemma_one_value(n, Val::Text(crate::text::int_text(k as int)));
    assert(lenenc::lenenc_bytes(encode_utf8(s)) =~= lenenc::lenenc(encode_utf8(s).len())
        + encode_utf8(s));
    if b.len() == 0 {
        assert(a + b =~= a);
        assert(resultset::row_bytes(n, a) + Seq::<u8>::empty() =~= resultset::row_bytes(n, a));
    } else {
        row_holds_values_in_order(n, a, b.drop_last(), s, k);
        assert((a + b).drop_last() =~= a + b.drop_last());
        assert(resultset::row_bytes(n, a + b) =~= resultset::row_bytes(n, a)
            + resultset::row_bytes(n, b));
    }
}

proof fn lemma_one_value(n: NumbersV, v: Val)
    ensures
        resultset::row_bytes(n, seq![v]) == resultset::value_bytes(n, v),
{
    assert(seq![v].drop_last() =~= Seq::<Val>::empty());
    reveal_with_fuel(resultset::row_bytes, 2);
    assert(Seq::<u8>::empty() + resultset::value_bytes(n, v) =~= resultset::value_bytes(n, v));
}

} // verus!
