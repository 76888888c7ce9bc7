//! The handshake, the passwords, and the short replies.

use sha1::Digest;
use vstd::prelude::*;
use vstd::utf8::*;

use crate::le;
use crate::model;
use crate::protocol::lenenc;
use crate::protocol::lenenc::read_lenenc;
use crate::text;
use crate::text::{same_bytes, utf8_text};

pub use crate::protocol::lenenc::{lenenc_int_bytes, lenenc_str};

verus! {

pub const SCRAMBLE_LEN: usize = 20;

pub const CLIENT_LONG_PASSWORD: u32 = 1;
pub const CLIENT_FOUND_ROWS: u32 = 2;
pub const CLIENT_LONG_FLAG: u32 = 4;
pub const CLIENT_CONNECT_WITH_DB: u32 = 8;
pub const CLIENT_COMPRESS: u32 = 32;
pub const CLIENT_LOCAL_FILES: u32 = 128;
pub const CLIENT_IGNORE_SPACE: u32 = 256;
pub const CLIENT_PROTOCOL_41: u32 = 512;
pub const CLIENT_INTERACTIVE: u32 = 1024;
pub const CLIENT_SSL: u32 = 2048;
pub const CLIENT_TRANSACTIONS: u32 = 8192;
pub const CLIENT_SECURE_CONNECTION: u32 = 32768;
pub const CLIENT_MULTI_STATEMENTS: u32 = 65536;
pub const CLIENT_MULTI_RESULTS: u32 = 131072;
pub const CLIENT_PS_MULTI_RESULTS: u32 = 262144;
pub const CLIENT_PLUGIN_AUTH: u32 = 524288;
pub const CLIENT_CONNECT_ATTRS: u32 = 1048576;
pub const CLIENT_PLUGIN_AUTH_LENENC_CLIENT_DATA: u32 = 2097152;
pub const CLIENT_CAN_HANDLE_EXPIRED_PASSWORDS: u32 = 4194304;
pub const CLIENT_SESSION_TRACK: u32 = 8388608;
pub const CLIENT_DEPRECATE_EOF: u32 = 16777216;

pub const SERVER_STATUS_AUTOCOMMIT: u16 = 2;

pub const COM_SLEEP: u8 = 0;
pub const COM_QUIT: u8 = 1;
pub const COM_INIT_DB: u8 = 2;
pub const COM_QUERY: u8 = 3;
pub const COM_PING: u8 = 14;

// ---------------------------------------------------------------------------
// Passwords
// ---------------------------------------------------------------------------

/// The SHA-1 digest of bytes.
pub uninterp spec fn sha1_digest(data: Seq<u8>) -> [u8; 20];

/// `sha1::Sha1::digest` computes the digest of bytes, which depends on the bytes
/// alone. Its twenty bytes are returned as they are.
#[verifier::external_body]
pub(crate) fn sha1(data: &[u8]) -> (r: [u8; 20])
    ensures
        r == sha1_digest(data@),
{
    sha1::Sha1::digest(data).into()
}

/// `rand::Rng::fill` fills the bytes of a scramble from the random numbers of the
/// thread. Nothing is promised of them.
#[verifier::external_body]
pub fn generate_scramble() -> (r: [u8; 20]) {
    let mut buf = [0u8; 20];
    rand::Rng::fill(&mut rand::thread_rng(), &mut buf);
    buf
}

/// The bytes of two sequences combined by exclusive or, as far as both go.
pub open spec fn combined(a: Seq<u8>, b: Seq<u8>) -> Seq<u8> {
    Seq::new(
        if a.len() < b.len() {
            a.len()
        } else {
            b.len()
        },
        |i: int| a[i] ^ b[i],
    )
}

/// What is stored of a password: the digest of its digest.
pub open spec fn double_hash(password: Seq<u8>) -> [u8; 20] {
    sha1_digest(sha1_digest(password)@)
}

/// What a client answers to a scramble to show that it knows a password.
pub open spec fn password_answer(password: Seq<u8>, scramble: Seq<u8>) -> Seq<u8> {
    combined(
        sha1_digest(password)@,
        sha1_digest(scramble + double_hash(password)@)@,
    )
}

/// An answer fits what is stored of a password: it is as long as a digest, and the
/// digest of the password can be had from it.
pub open spec fn answer_fits(stored: Seq<u8>, scramble: Seq<u8>, answer: Seq<u8>) -> bool {
    answer.len() == 20 && sha1_digest(combined(answer, sha1_digest(scramble + stored)@))@ == stored
}

/// The answer of a client that knows the password fits.
pub proof fn right_answer_fits(password: Seq<u8>, scramble: Seq<u8>)
    ensures
        answer_fits(double_hash(password)@, scramble, password_answer(password, scramble)),
{
    let h = sha1_digest(password)@;
    let k = sha1_digest(scramble + double_hash(password)@)@;
    assert(h.len() == 20 && k.len() == 20);
    assert forall|i: int| 0 <= i < 20 implies combined(combined(h, k), k)[i] == h[i] by {
        let a = h[i];
        let b = k[i];
        assert((a ^ b) ^ b == a) by (bit_vector);
    }
    assert(combined(combined(h, k), k) =~= h);
}

/// The answer of a client is, byte by byte, the exclusive or of the digest of its password
/// and the digest of the scramble with the digest of that digest behind it. The server
/// accepts what gives back, with the same exclusive or, something whose digest is the one
/// that it stores.
pub proof fn answer_hides_the_digest(
    password: Seq<u8>,
    scramble: Seq<u8>,
    answer: Seq<u8>,
    secret: Seq<u8>,
)
    requires
        secret.len() == 20,
        answer.len() == 20,
        ({
            let twice = sha1_digest(sha1_digest(password)@)@;
            forall|i: int|
                0 <= i < 20 ==> answer[i] == #[trigger] secret[i] ^ sha1_digest(
                    scramble + twice,
                )@[i]
        }),
    ensures
        ({
            let once = sha1_digest(password)@;
            let twice = sha1_digest(once)@;
            &&& double_hash(password)@ == twice
            &&& password_answer(password, scramble).len() == 20
            &&& forall|i: int|
                0 <= i < 20 ==> #[trigger] password_answer(password, scramble)[i] == once[i]
                    ^ sha1_digest(scramble + twice)@[i]
            &&& answer_fits(double_hash(password)@, scramble, answer) <==> sha1_digest(secret)@
                == twice
        }),
{
    let twice = sha1_digest(sha1_digest(password)@)@;
    let k = sha1_digest(scramble + twice)@;
    assert(k.len() == 20);
    assert(combined(answer, k) =~= secret) by {
        assert forall|i: int| 0 <= i < 20 implies combined(answer, k)[i] == secret[i] by {
            let a = secret[i];
            let b = k[i];
            assert(answer[i] == a ^ b);
            assert((a ^ b) ^ b == a) by (bit_vector);
        }
    }
}

/// No other length fits: a right answer with more bytes behind it, or without its last
/// bytes, is refused.
pub proof fn answer_of_another_length_is_refused(
    password: Seq<u8>,
    scramble: Seq<u8>,
    more: Seq<u8>,
    n: int,
)
    requires
        more.len() > 0,
        0 <= n < password_answer(password, scramble).len(),
    ensures
        !answer_fits(
            double_hash(password)@,
            scramble,
            password_answer(password, scramble) + more,
        ),
        !answer_fits(
            double_hash(password)@,
            scramble,
            password_answer(password, scramble).take(n),
        ),
{
}

fn combine(a: &[u8], b: &[u8]) -> (r: Vec<u8>)
    ensures
        r@ == combined(a@, b@),
{
    let ghost want = combined(a@, b@);
    let mut out: Vec<u8> = Vec::new();
    let mut i: usize = 0;
    while i < a.len() && i < b.len()
        invariant
            want == combined(a@, b@),
            i <= a.len(),
            i <= b.len(),
            out@ == want.take(i as int),
        decreases a.len() - i,
    {
        out.push(a[i] ^ b[i]);
        i = i + 1;
        assert(out@ =~= want.take(i as int));
    }
    assert(want.take(want.len() as int) =~= want);
    out
}

fn sha1_of_two(a: &[u8], b: &[u8]) -> (r: [u8; 20])
    ensures
        r == sha1_digest(a@ + b@),
{
    let mut all: Vec<u8> = Vec::new();
    all.extend_from_slice(a);
    all.extend_from_slice(b);
    assert(all@ =~= a@ + b@);
    sha1(all.as_slice())
}

/// What a client answers to a scramble to show that it knows a password.
pub fn compute_auth_response(password: &[u8], scramble: &[u8]) -> (r: Vec<u8>)
    ensures
        r@ == password_answer(password@, scramble@),
{
    let password_hash = sha1(password);
    let stored = sha1(password_hash.as_slice());
    let hash = sha1_of_two(scramble, stored.as_slice());
    combine(password_hash.as_slice(), hash.as_slice())
}

/// Whether a client that answered to a scramble knows a password.
pub fn verify_native_password(password: &str, scramble: &[u8; 20], auth_response: &[u8]) -> (r: bool)
    ensures
        r == (auth_response@ == password_answer(encode_utf8(password@), scramble@)),
{
    let expected = compute_auth_response(password.as_bytes(), scramble.as_slice());
    same_bytes(auth_response, expected.as_slice())
}

/// Whether an answer to a scramble fits what is stored of a password.
pub fn verify_native_password_hash(
    stored_double_hash: &[u8; 20],
    scramble: &[u8; 20],
    auth_response: &[u8],
) -> (r: bool)
    ensures
        r == answer_fits(stored_double_hash@, scramble@, auth_response@),
{
    if auth_response.len() != 20 {
        return false;
    }
    let hash = sha1_of_two(scramble.as_slice(), stored_double_hash.as_slice());
    let password_hash = combine(auth_response, hash.as_slice());
    let found = sha1(password_hash.as_slice());
    same_bytes(found.as_slice(), stored_double_hash.as_slice())
}

/// What is stored of a password: the digest of its digest.
pub fn hash_native_password(password: &str) -> (r: [u8; 20])
    ensures
        r == double_hash(encode_utf8(password@)),
{
    let first = sha1(password.as_bytes());
    sha1(first.as_slice())
}

// ---------------------------------------------------------------------------
// Short replies
// ---------------------------------------------------------------------------

/// The bytes of a reply that all went well.
pub open spec fn ok_bytes(affected_rows: u64, last_insert_id: u64, status: u16) -> Seq<u8> {
    seq![0u8] + lenenc::lenenc(affected_rows as nat) + lenenc::lenenc(last_insert_id as nat)
        + le::le(status as nat, 2) + seq![0u8, 0u8]
}

/// The bytes of an error: its number, the general state, and its text.
pub open spec fn err_bytes(code: u16, message: Seq<char>) -> Seq<u8> {
    seq![0xFFu8] + le::le(code as nat, 2) + encode_utf8("#HY000"@) + encode_utf8(message)
}

/// The bytes of the end of a list.
pub open spec fn eof_bytes() -> Seq<u8> {
    seq![0xFEu8, 2u8, 0u8, 0u8, 0u8]
}

/// A reply that all went well starts with a zero, an error with 255, its number with the
/// lowest byte first and a state of six characters, and the end of a list with 254.
pub proof fn replies_are_told_by_their_first_byte(
    affected_rows: u64,
    last_insert_id: u64,
    code: u16,
    message: Seq<char>,
)
    ensures
        ok_bytes(affected_rows, last_insert_id, 2)[0] == 0,
        affected_rows < 251 && last_insert_id < 251 ==> ok_bytes(affected_rows, last_insert_id, 2)
            == seq![0u8, affected_rows as u8, last_insert_id as u8, 2u8, 0u8, 0u8, 0u8],
        err_bytes(code, message)[0] == 255,
        err_bytes(code, message)[1] == code % 256,
        err_bytes(code, message)[2] == code / 256,
        err_bytes(code, message).skip(3) == encode_utf8("#HY000"@) + encode_utf8(message),
        eof_bytes()[0] == 254 && eof_bytes().len() == 5,
{
    le::lowest_byte_comes_first(2);
    le::lowest_byte_comes_first(code as nat);
    assert(code as nat / 256 % 256 == code / 256);
    lenenc::numbers_are_marked_by_size(affected_rows as nat);
    lenenc::numbers_are_marked_by_size(last_insert_id as nat);
    if affected_rows < 251 && last_insert_id < 251 {
        assert(ok_bytes(affected_rows, last_insert_id, 2) =~= seq![
            0u8,
            affected_rows as u8,
            last_insert_id as u8,
            2u8,
            0u8,
            0u8,
            0u8,
        ]);
    }
    assert(err_bytes(code, message).skip(3) =~= encode_utf8("#HY000"@) + encode_utf8(message));
}

/// A reply that all went well.
pub fn ok_payload(affected_rows: u64, last_insert_id: u64, status: u16) -> (r: Vec<u8>)
    ensures
        r@ == ok_bytes(affected_rows, last_insert_id, status),
{
    let mut p: Vec<u8> = Vec::new();
    p.push(0);
    p.extend_from_slice(lenenc_int_bytes(affected_rows).as_slice());
    p.extend_from_slice(lenenc_int_bytes(last_insert_id).as_slice());
    le::push_le(&mut p, status as u64, 2);
    p.push(0);
    p.push(0);
    assert(p@ =~= ok_bytes(affected_rows, last_insert_id, status));
    p
}

/// An error with its number and text.
pub fn err_payload(code: u16, message: &str) -> (r: Vec<u8>)
    ensures
        r@ == err_bytes(code, message@),
{
    let mut p: Vec<u8> = Vec::new();
    p.push(0xFF);
    le::push_le(&mut p, code as u64, 2);
    p.extend_from_slice("#HY000".as_bytes());
    p.extend_from_slice(message.as_bytes());
    assert(p@ =~= err_bytes(code, message@));
    p
}

/// The end of a list.
pub fn eof_payload() -> (r: Vec<u8>)
    ensures
        r@ == eof_bytes(),
{
    let mut p: Vec<u8> = Vec::new();
    p.push(0xFE);
    p.push(2);
    p.push(0);
    p.push(0);
    p.push(0);
    assert(p@ =~= eof_bytes());
    p
}

// ---------------------------------------------------------------------------
// The greeting of the server
// ---------------------------------------------------------------------------

pub open spec fn zeros(n: nat) -> Seq<u8> {
    Seq::new(n, |i: int| 0u8)
}

/// A text that ends with a zero byte.
pub open spec fn terminated(s: Seq<char>) -> Seq<u8> {
    encode_utf8(s) + seq![0u8]
}

pub open spec fn has_plugin_auth(capabilities: u32) -> bool {
    capabilities & CLIENT_PLUGIN_AUTH != 0
}

pub open spec fn has_secure_connection(capabilities: u32) -> bool {
    capabilities & CLIENT_SECURE_CONNECTION != 0
}

/// The front of the greeting, up to the length of the scramble.
pub open spec fn greeting_front(
    conn_id: u32,
    scramble: Seq<u8>,
    capabilities: u32,
    charset: u8,
) -> Seq<u8> {
    seq![10u8] + terminated("srrdb 0.2.0"@) + le::le(conn_id as nat, 4) + scramble.take(8)
        + seq![0u8] + le::le(capabilities as nat, 2) + seq![charset] + le::le(2, 2) + le::le(
        capabilities as nat / 0x1_0000,
        2,
    )
}

/// The bytes that the server greets a client with.
pub open spec fn greeting_bytes(
    conn_id: u32,
    scramble: Seq<u8>,
    capabilities: u32,
    charset: u8,
) -> Seq<u8> {
    greeting_front(conn_id, scramble, capabilities, charset) + seq![
        if has_plugin_auth(capabilities) {
            21u8
        } else {
            0u8
        },
    ] + zeros(10) + (if has_secure_connection(capabilities) {
        scramble.skip(8) + seq![0u8]
    } else {
        Seq::empty()
    }) + (if has_plugin_auth(capabilities) {
        terminated("mysql_native_password"@)
    } else {
        Seq::empty()
    })
}

pub(crate) fn push_zeros(out: &mut Vec<u8>, n: usize)
    ensures
        final(out)@ == old(out)@ + zeros(n as nat),
{
    let mut i: usize = 0;
    assert(out@ + zeros(0) =~= out@);
    while i < n
        invariant
            i <= n,
            out@ == old(out)@ + zeros(i as nat),
        decreases n - i,
    {
        out.push(0);
        i = i + 1;
        assert(out@ =~= old(out)@ + zeros(i as nat));
    }
}

/// The greeting of the server: its version, the number of the connection, the
/// scramble, and what the server can do.
pub fn build_handshake(conn_id: u32, scramble: &[u8; 20], capabilities: u32, charset: u8) -> (r: Vec<
    u8,
>)
    ensures
        r@ == greeting_bytes(conn_id, scramble@, capabilities, charset),
{
    let scramble_bytes = scramble.as_slice();
    let mut p: Vec<u8> = Vec::new();
    p.push(10);
    p.extend_from_slice("srrdb 0.2.0".as_bytes());
    p.push(0);
    le::push_le(&mut p, conn_id as u64, 4);
    p.extend_from_slice(vstd::slice::slice_subrange(scramble_bytes, 0, 8));
    p.push(0);
    le::push_le(&mut p, capabilities as u64, 2);
    p.push(charset);
    le::push_le(&mut p, 2, 2);
    le::push_le(&mut p, capabilities as u64 / 0x1_0000, 2);
    assert(p@ =~= greeting_front(conn_id, scramble@, capabilities, charset));
    let plugin: bool = capabilities & CLIENT_PLUGIN_AUTH != 0;
    if plugin {
        p.push(21);
    } else {
        p.push(0);
    }
    push_zeros(&mut p, 10);
    if capabilities & CLIENT_SECURE_CONNECTION != 0 {
        p.extend_from_slice(vstd::slice::slice_subrange(scramble_bytes, 8, 20));
        p.push(0);
    }
    if plugin {
        p.extend_from_slice("mysql_native_password".as_bytes());
        p.push(0);
    }
    assert(p@ =~= greeting_bytes(conn_id, scramble@, capabilities, charset));
    p
}

// ---------------------------------------------------------------------------
// The response of the client
// ---------------------------------------------------------------------------

/// What a client answers to the greeting.
#[derive(Debug)]
pub struct HandshakeResponse {
    pub capabilities: u32,
    pub max_packet_size: u32,
    pub charset: u8,
    pub username: String,
    pub auth_response: Vec<u8>,
    pub database: Option<String>,
    pub auth_plugin: Option<String>,
}

/// What a `HandshakeResponse` stands for.
#[verifier::ext_equal]
pub struct ResponseV {
    pub capabilities: u32,
    pub max_packet_size: u32,
    pub charset: u8,
    pub username: Seq<char>,
    pub auth_response: Seq<u8>,
    pub database: Option<Seq<char>>,
    pub auth_plugin: Option<Seq<char>>,
}

impl View for HandshakeResponse {
    type V = ResponseV;

    open spec fn view(&self) -> ResponseV {
        ResponseV {
            capabilities: self.capabilities,
            max_packet_size: self.max_packet_size,
            charset: self.charset,
            username: self.username@,
            auth_response: self.auth_response@,
            database: model::view_opt(self.database),
            auth_plugin: model::view_opt(self.auth_plugin),
        }
    }
}

pub open spec fn is_zero() -> spec_fn(u8) -> bool {
    |b: u8| b == 0
}

/// How far from a place the next zero byte is.
pub open spec fn zero_from(bytes: Seq<u8>, pos: int) -> Option<int> {
    model::first(bytes.skip(pos), is_zero())
}

/// The text from a place up to the next zero byte, and the place behind that byte.
/// Without such a byte `missing` is the error.
pub open spec fn text_from(bytes: Seq<u8>, pos: int, missing: Seq<char>) -> Result<
    (Seq<char>, int),
    Seq<char>,
> {
    match zero_from(bytes, pos) {
        None => Err(missing),
        Some(n) => match text::utf8_read(bytes.subrange(pos, pos + n)) {
            Ok(s) => Ok((s, pos + n + 1)),
            Err(e) => Err(e),
        },
    }
}

/// `n` bytes from a place, and the place behind them, if there are so many.
pub open spec fn bytes_from(bytes: Seq<u8>, pos: int, n: nat) -> Option<(Seq<u8>, int)> {
    if pos + n <= bytes.len() {
        Some((bytes.subrange(pos, pos + n), pos + n))
    } else {
        None
    }
}

/// The answer to the scramble: behind its length, of one or more bytes, or up to
/// the next zero byte. There is none where the packet ends too early.
pub open spec fn answer_from(bytes: Seq<u8>, pos: int, capabilities: u32) -> Option<
    Result<(Seq<u8>, int), Seq<char>>,
> {
    if capabilities & CLIENT_PLUGIN_AUTH_LENENC_CLIENT_DATA != 0 {
        match lenenc::lenenc_read(bytes.skip(pos)) {
            None => None,
            Some((len, n)) => match bytes_from(bytes, pos + n, len) {
                None => None,
                Some(found) => Some(Ok(found)),
            },
        }
    } else if has_secure_connection(capabilities) {
        if pos < bytes.len() {
            match bytes_from(bytes, pos + 1, bytes[pos] as nat) {
                None => None,
                Some(found) => Some(Ok(found)),
            }
        } else {
            None
        }
    } else {
        match zero_from(bytes, pos) {
            None => Some(Err("expected null-terminated auth response"@)),
            Some(n) => Some(Ok((bytes.subrange(pos, pos + n), pos + n + 1))),
        }
    }
}

/// The name of the database, if the client gives one.
pub open spec fn database_from(bytes: Seq<u8>, pos: int, capabilities: u32) -> Result<
    (Option<Seq<char>>, int),
    Seq<char>,
> {
    if capabilities & CLIENT_CONNECT_WITH_DB != 0 {
        match text_from(bytes, pos, "expected null-terminated database"@) {
            Ok((s, next)) => Ok((Some(s), next)),
            Err(e) => Err(e),
        }
    } else {
        Ok((None, pos))
    }
}

/// The name of the method of authentication, if the client gives one.
pub open spec fn plugin_from(bytes: Seq<u8>, pos: int, capabilities: u32) -> Result<
    Option<Seq<char>>,
    Seq<char>,
> {
    if has_plugin_auth(capabilities) {
        match text_from(bytes, pos, "expected null-terminated auth plugin"@) {
            Ok((s, _)) => Ok(Some(s)),
            Err(e) => Err(e),
        }
    } else {
        Ok(None)
    }
}

/// The response that a packet holds, or why it holds none. There is neither where
/// the packet ends too early.
pub open spec fn response_read(bytes: Seq<u8>) -> Option<Result<ResponseV, Seq<char>>> {
    if bytes.len() < 32 {
        None
    } else {
        let capabilities = le::le_value(bytes.subrange(0, 4)) as u32;
        match text_from(bytes, 32, "expected null-terminated username"@) {
            Err(e) => Some(Err(e)),
            Ok((username, p1)) => match answer_from(bytes, p1, capabilities) {
                None => None,
                Some(Err(e)) => Some(Err(e)),
                Some(Ok((auth_response, p2))) => match database_from(bytes, p2, capabilities) {
                    Err(e) => Some(Err(e)),
                    Ok((database, p3)) => match plugin_from(bytes, p3, capabilities) {
                        Err(e) => Some(Err(e)),
                        Ok(auth_plugin) => Some(
                            Ok(
                                ResponseV {
                                    capabilities,
                                    max_packet_size: le::le_value(bytes.subrange(4, 8)) as u32,
                                    charset: bytes[8],
                                    username,
                                    auth_response,
                                    database,
                                    auth_plugin,
                                },
                            ),
                        ),
                    },
                },
            },
        }
    }
}

pub(crate) fn find_zero(bytes: &[u8], pos: usize) -> (r: Option<usize>)
    requires
        pos <= bytes.len(),
    ensures
        match r {
            Some(n) => zero_from(bytes@, pos as int) == Some(n as int) && pos + n < bytes.len(),
            None => zero_from(bytes@, pos as int) is None,
        },
{
    let ghost rest = bytes@.skip(pos as int);
    let mut i: usize = pos;
    while i < bytes.len()
        invariant
            rest == bytes@.skip(pos as int),
            pos <= i <= bytes.len(),
            forall|j: int| 0 <= j < i - pos ==> #[trigger] rest[j] != 0,
        decreases bytes.len() - i,
    {
        assert(rest[i - pos] == bytes@[i as int]);
        if bytes[i] == 0 {
            proof {
                model::lemma_first_is(rest, is_zero(), i - pos);
            }
            return Some(i - pos);
        }
        i = i + 1;
    }
    proof {
        model::lemma_first_none(rest, is_zero());
    }
    None
}

pub(crate) fn text_at(bytes: &[u8], pos: usize, missing: &str) -> (r: Result<(String, usize), String>)
    requires
        pos <= bytes.len(),
    ensures
        match r {
            Ok((s, next)) => text_from(bytes@, pos as int, missing@) == Ok::<
                (Seq<char>, int),
                Seq<char>,
            >((s@, next as int)) && next <= bytes.len(),
            Err(e) => text_from(bytes@, pos as int, missing@) == Err::<
                (Seq<char>, int),
                Seq<char>,
            >(e@),
        },
{
    match find_zero(bytes, pos) {
        None => Err(missing.to_string()),
        Some(n) => match utf8_text(vstd::slice::slice_subrange(bytes, pos, pos + n)) {
            Ok(s) => Ok((s, pos + n + 1)),
            Err(e) => Err(e),
        },
    }
}

fn bytes_at(bytes: &[u8], pos: usize, n: u64) -> (r: Option<(Vec<u8>, usize)>)
    requires
        pos <= bytes.len(),
    ensures
        match r {
            Some((data, next)) => bytes_from(bytes@, pos as int, n as nat) == Some(
                (data@, next as int),
            ) && next <= bytes.len(),
            None => bytes_from(bytes@, pos as int, n as nat) is None,
        },
{
    if n > (bytes.len() - pos) as u64 {
        return None;
    }
    let end: usize = pos + n as usize;
    let mut data: Vec<u8> = Vec::new();
    data.extend_from_slice(vstd::slice::slice_subrange(bytes, pos, end));
    assert(data@ =~= bytes@.subrange(pos as int, end as int));
    Some((data, end))
}

fn answer_at(bytes: &[u8], pos: usize, capabilities: u32) -> (r: Option<
    Result<(Vec<u8>, usize), String>,
>)
    requires
        pos <= bytes.len(),
    ensures
        match r {
            Some(Ok((data, next))) => answer_from(bytes@, pos as int, capabilities) == Some(
                Ok::<(Seq<u8>, int), Seq<char>>((data@, next as int)),
            ) && next <= bytes.len(),
            Some(Err(e)) => answer_from(bytes@, pos as int, capabilities) == Some(
                Err::<(Seq<u8>, int), Seq<char>>(e@),
            ),
            None => answer_from(bytes@, pos as int, capabilities) is None,
        },
{
    if capabilities & CLIENT_PLUGIN_AUTH_LENENC_CLIENT_DATA != 0 {
        match read_lenenc(bytes, pos) {
            None => None,
            Some((len, n)) => match bytes_at(bytes, pos + n, len) {
                None => None,
                Some(found) => Some(Ok(found)),
            },
        }
    } else if capabilities & CLIENT_SECURE_CONNECTION != 0 {
        if pos < bytes.len() {
            match bytes_at(bytes, pos + 1, bytes[pos] as u64) {
                None => None,
                Some(found) => Some(Ok(found)),
            }
        } else {
            None
        }
    } else {
        match find_zero(bytes, pos) {
            None => Some(Err("expected null-terminated auth response".to_string())),
            Some(n) => {
                let mut data: Vec<u8> = Vec::new();
                data.extend_from_slice(vstd::slice::slice_subrange(bytes, pos, pos + n));
                assert(data@ =~= bytes@.subrange(pos as int, pos + n));
                Some(Ok((data, pos + n + 1)))
            },
        }
    }
}

fn scan_response(payload: &[u8]) -> (r: Option<Result<HandshakeResponse, String>>)
    ensures
        match r {
            Some(Ok(v)) => response_read(payload@) == Some(Ok::<ResponseV, Seq<char>>(v@)),
            Some(Err(e)) => response_read(payload@) == Some(Err::<ResponseV, Seq<char>>(e@)),
            None => response_read(payload@) is None,
        },
{
    if payload.len() < 32 {
        return None;
    }
    let capabilities: u32 = le::read_le(payload, 0, 4) as u32;
    let max_packet_size: u32 = le::read_le(payload, 4, 4) as u32;
    let charset: u8 = payload[8];
    let (username, p1) = match text_at(payload, 32, "expected null-terminated username") {
        Ok(found) => found,
        Err(e) => {
            return Some(Err(e));
        },
    };
    let (auth_response, p2) = match answer_at(payload, p1, capabilities) {
        None => {
            return None;
        },
        Some(Err(e)) => {
            return Some(Err(e));
        },
        Some(Ok(found)) => found,
    };
    let mut p3: usize = p2;
    let mut database: Option<String> = None;
    if capabilities & CLIENT_CONNECT_WITH_DB != 0 {
        match text_at(payload, p2, "expected null-terminated database") {
            Ok((s, next)) => {
                database = Some(s);
                p3 = next;
            },
            Err(e) => {
                return Some(Err(e));
            },
        }
    }
    let mut auth_plugin: Option<String> = None;
    if capabilities & CLIENT_PLUGIN_AUTH != 0 {
        match text_at(payload, p3, "expected null-terminated auth plugin") {
            Ok((s, _)) => {
                auth_plugin = Some(s);
            },
            Err(e) => {
                return Some(Err(e));
            },
        }
    }
    Some(
        Ok(
            HandshakeResponse {
                capabilities,
                max_packet_size,
                charset,
                username,
                auth_response,
                database,
                auth_plugin,
            },
        ),
    )
}

/// The response that a packet holds, or why it holds none. The packet must not end
/// too early.
pub fn parse_handshake_response(payload: &[u8]) -> (r: Result<HandshakeResponse, String>)
    requires
        response_read(payload@) is Some,
    ensures
        match r {
            Ok(v) => response_read(payload@) == Some(Ok::<ResponseV, Seq<char>>(v@)),
            Err(e) => response_read(payload@) == Some(Err::<ResponseV, Seq<char>>(e@)),
        },
{
    match scan_response(payload) {
        Some(r) => r,
        None => Err(String::new()),
    }
}

/// The response that a packet holds, or why it holds none; nothing where the packet
/// ends too early.
pub fn read_handshake_response(payload: &[u8]) -> (r: Option<Result<HandshakeResponse, String>>)
    ensures
        match r {
            Some(Ok(v)) => response_read(payload@) == Some(Ok::<ResponseV, Seq<char>>(v@)),
            Some(Err(e)) => response_read(payload@) == Some(Err::<ResponseV, Seq<char>>(e@)),
            None => response_read(payload@) is None,
        },
{
    match scan_response(payload) {
        Some(_) => Some(parse_handshake_response(payload)),
        None => None,
    }
}

} // verus!
