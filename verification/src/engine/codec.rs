//! The form in which values are kept on disk: numbers of a fixed width with the
//! lowest byte first, lengths as 64-bit numbers in front of what they count, and
//! a 32-bit number in front of each choice. It is the form of the `bincode`
//! crate for the same fields in the same order.

use vstd::prelude::*;
use vstd::utf8::*;

use crate::engine::catalog::{Catalog, CatalogV, DatabaseDef, DatabaseV, IndexList, TableDef, TableV};
use crate::engine::index::{IndexDef, IndexDefV, IndexType};
use crate::engine::storage::{Row, RowV};
use crate::engine::types::{Column, ColumnType, ColumnV, DefaultExpr, DefaultV, Val, Value};
use crate::le;
use crate::model;
use crate::names;
use crate::names::NameMap;

verus! {

broadcast use crate::model::group_views;

// ---------------------------------------------------------------------------
// What bincode does for plain values
// ---------------------------------------------------------------------------

/// `bincode::serialize` of a 16-bit number gives its two bytes, the lowest first.
#[verifier::external_body]
fn u16_bytes(n: u16) -> (r: Vec<u8>)
    ensures
        r@ == le::le(n as nat, 2),
{
    bincode::serialize(&n).unwrap()
}

/// `bincode::serialize` of a 32-bit number gives its four bytes, the lowest
/// first.
#[verifier::external_body]
fn u32_bytes(n: u32) -> (r: Vec<u8>)
    ensures
        r@ == le::le(n as nat, 4),
{
    bincode::serialize(&n).unwrap()
}

/// `bincode::serialize` of a 64-bit number gives its eight bytes, the lowest
/// first.
#[verifier::external_body]
fn u64_bytes(n: u64) -> (r: Vec<u8>)
    ensures
        r@ == le::le(n as nat, 8),
{
    bincode::serialize(&n).unwrap()
}

/// `bincode::serialize` of a text gives the number of its bytes as a 64-bit
/// number and then the bytes.
#[verifier::external_body]
fn text_bytes(s: &String) -> (r: Vec<u8>)
    ensures
        r@ == le::le(encode_utf8(s@).len(), 8) + encode_utf8(s@),
{
    bincode::serialize(s).unwrap()
}

/// `bincode::deserialize` of a 16-bit number reads the first two bytes and fails
/// where there are fewer. It leaves what follows them.
#[verifier::external_body]
fn u16_of(bytes: &[u8]) -> (r: Option<u16>)
    ensures
        match r {
            Some(n) => bytes@.len() >= 2 && n == le::le_value(bytes@.take(2)),
            None => bytes@.len() < 2,
        },
{
    bincode::deserialize(bytes).ok()
}

/// `bincode::deserialize` of a 32-bit number reads the first four bytes and fails
/// where there are fewer. It leaves what follows them.
#[verifier::external_body]
fn u32_of(bytes: &[u8]) -> (r: Option<u32>)
    ensures
        match r {
            Some(n) => bytes@.len() >= 4 && n == le::le_value(bytes@.take(4)),
            None => bytes@.len() < 4,
        },
{
    bincode::deserialize(bytes).ok()
}

/// `bincode::deserialize` of a 64-bit number reads the first eight bytes and
/// fails where there are fewer. It leaves what follows them.
#[verifier::external_body]
fn u64_of(bytes: &[u8]) -> (r: Option<u64>)
    ensures
        match r {
            Some(n) => bytes@.len() >= 8 && n == le::le_value(bytes@.take(8)),
            None => bytes@.len() < 8,
        },
{
    bincode::deserialize(bytes).ok()
}

/// The bytes start with a text: its length in eight bytes and as many bytes that
/// are valid UTF-8.
pub open spec fn starts_with_text(bytes: Seq<u8>) -> bool {
    &&& bytes.len() >= 8
    &&& le::le_value(bytes.take(8)) <= bytes.len() - 8
    &&& valid_utf8(bytes.subrange(8, 8 + le::le_value(bytes.take(8)) as int))
}

/// `bincode::deserialize` of a text reads its length and as many bytes. It fails
/// where there are fewer or they are not valid UTF-8, and leaves what follows.
#[verifier::external_body]
fn text_of(bytes: &[u8]) -> (r: Option<String>)
    ensures
        match r {
            Some(s) => starts_with_text(bytes@) && s@ == decode_utf8(
                bytes@.subrange(8, 8 + le::le_value(bytes@.take(8)) as int),
            ),
            None => !starts_with_text(bytes@),
        },
{
    bincode::deserialize(bytes).ok()
}

// ---------------------------------------------------------------------------
// Coded types
// ---------------------------------------------------------------------------

/// A type with a form on disk.
pub trait Coded: View + Sized {
    /// All lengths in the value fit the 64 bits that they are written in.
    spec fn fits(v: Self::V) -> bool;

    /// The bytes of a value.
    spec fn enc(v: Self::V) -> Seq<u8>;

    /// The value at the front of bytes, and what follows it.
    spec fn dec(bytes: Seq<u8>) -> Option<(Self::V, Seq<u8>)>;

    /// The names in the value can be listed.
    spec fn listed(v: Self::V) -> bool;

    /// A value has at least one byte, and fits if its bytes can be counted in 64 bits.
    proof fn fits_by_length(v: Self::V)
        ensures
            Self::enc(v).len() > 0,
            Self::listed(v) && Self::enc(v).len() <= u64::MAX ==> Self::fits(v),
    ;

    /// The bytes of a value give it back, whatever follows them.
    proof fn round_trip(v: Self::V, rest: Seq<u8>)
        requires
            Self::fits(v),
        ensures
            Self::dec(Self::enc(v) + rest) == Some((v, rest)),
    ;

    /// Appends the bytes of the value.
    fn encode(&self, out: &mut Vec<u8>)
        ensures
            final(out)@ == old(out)@ + Self::enc(self@),
    ;

    /// Reads a value at a place, and tells the place behind it.
    fn decode(bytes: &[u8], pos: usize) -> (r: Option<(Self, usize)>)
        requires
            pos <= bytes.len(),
        ensures
            match r {
                Some((v, p)) => p <= bytes.len() && Self::dec(bytes@.skip(pos as int)) == Some(
                    (v@, bytes@.skip(p as int)),
                ),
                None => Self::dec(bytes@.skip(pos as int)) is None,
            },
    ;
}

/// The number at the front of bytes.
pub open spec fn dec_le(bytes: Seq<u8>, n: nat) -> Option<(nat, Seq<u8>)> {
    if bytes.len() < n {
        None
    } else {
        Some((le::le_value(bytes.take(n as int)), bytes.skip(n as int)))
    }
}

pub proof fn lemma_dec_le(x: nat, n: nat, rest: Seq<u8>)
    requires
        x < le::bound(n),
    ensures
        dec_le(le::le(x, n) + rest, n) == Some((x, rest)),
{
    le::le_round_trip(x, n);
    assert((le::le(x, n) + rest).take(n as int) =~= le::le(x, n));
    assert((le::le(x, n) + rest).skip(n as int) =~= rest);
}

fn append(out: &mut Vec<u8>, bytes: &Vec<u8>)
    ensures
        final(out)@ == old(out)@ + bytes@,
{
    out.extend_from_slice(bytes.as_slice());
    assert(out@ =~= old(out)@ + bytes@);
}

/// The bytes from a place on.
fn from_place(bytes: &[u8], pos: usize) -> (r: &[u8])
    requires
        pos <= bytes.len(),
    ensures
        r@ == bytes@.skip(pos as int),
{
    let r = vstd::slice::slice_subrange(bytes, pos, bytes.len());
    assert(r@ =~= bytes@.skip(pos as int));
    r
}

proof fn lemma_regroup(a: Seq<u8>, b: Seq<u8>, c: Seq<u8>)
    ensures
        (a + b) + c == a + (b + c),
{
    assert((a + b) + c =~= a + (b + c));
}

impl Coded for u8 {
    open spec fn fits(v: u8) -> bool {
        true
    }

    open spec fn enc(v: u8) -> Seq<u8> {
        seq![v]
    }

    open spec fn dec(bytes: Seq<u8>) -> Option<(u8, Seq<u8>)> {
        if bytes.len() == 0 {
            None
        } else {
            Some((bytes[0], bytes.skip(1)))
        }
    }

    open spec fn listed(v: u8) -> bool {
        true
    }

    proof fn fits_by_length(v: u8) {
    }

    proof fn round_trip(v: u8, rest: Seq<u8>) {
        assert((seq![v] + rest).skip(1) =~= rest);
    }

    fn encode(&self, out: &mut Vec<u8>) {
        out.push(*self);
        assert(out@ =~= old(out)@ + seq![*self]);
    }

    fn decode(bytes: &[u8], pos: usize) -> (r: Option<(Self, usize)>) {
        if pos < bytes.len() {
            assert(bytes@.skip(pos as int).skip(1) =~= bytes@.skip(pos + 1));
            Some((bytes[pos], pos + 1))
        } else {
            None
        }
    }
}

impl Coded for bool {
    open spec fn fits(v: bool) -> bool {
        true
    }

    open spec fn enc(v: bool) -> Seq<u8> {
        if v {
            seq![1u8]
        } else {
            seq![0u8]
        }
    }

    /// Only zero and one are truth values.
    open spec fn dec(bytes: Seq<u8>) -> Option<(bool, Seq<u8>)> {
        if bytes.len() == 0 || bytes[0] > 1 {
            None
        } else {
            Some((bytes[0] == 1, bytes.skip(1)))
        }
    }

    open spec fn listed(v: bool) -> bool {
        true
    }

    proof fn fits_by_length(v: bool) {
    }

    proof fn round_trip(v: bool, rest: Seq<u8>) {
        assert((Self::enc(v) + rest).skip(1) =~= rest);
    }

    fn encode(&self, out: &mut Vec<u8>) {
        out.push(
            if *self {
                1u8
            } else {
                0u8
            },
        );
        assert(out@ =~= old(out)@ + Self::enc(*self));
    }

    fn decode(bytes: &[u8], pos: usize) -> (r: Option<(Self, usize)>) {
        if pos < bytes.len() && bytes[pos] <= 1 {
            assert(bytes@.skip(pos as int).skip(1) =~= bytes@.skip(pos + 1));
            Some((bytes[pos] == 1, pos + 1))
        } else {
            None
        }
    }
}

impl Coded for u16 {
    open spec fn fits(v: u16) -> bool {
        true
    }

    open spec fn enc(v: u16) -> Seq<u8> {
        le::le(v as nat, 2)
    }

    open spec fn dec(bytes: Seq<u8>) -> Option<(u16, Seq<u8>)> {
        match dec_le(bytes, 2) {
            Some((n, rest)) => Some((n as u16, rest)),
            None => None,
        }
    }

    open spec fn listed(v: u16) -> bool {
        true
    }

    proof fn fits_by_length(v: u16) {
        le::lemma_le_len(v as nat, 2);
    }

    proof fn round_trip(v: u16, rest: Seq<u8>) {
        le::lemma_bounds();
        lemma_dec_le(v as nat, 2, rest);
    }

    fn encode(&self, out: &mut Vec<u8>) {
        append(out, &u16_bytes(*self));
    }

    fn decode(bytes: &[u8], pos: usize) -> (r: Option<(Self, usize)>) {
        match u16_of(from_place(bytes, pos)) {
            Some(n) => {
                assert(bytes@.skip(pos as int).skip(2) =~= bytes@.skip(pos + 2));
                Some((n, pos + 2))
            },
            None => None,
        }
    }
}

impl Coded for u32 {
    open spec fn fits(v: u32) -> bool {
        true
    }

    open spec fn enc(v: u32) -> Seq<u8> {
        le::le(v as nat, 4)
    }

    open spec fn dec(bytes: Seq<u8>) -> Option<(u32, Seq<u8>)> {
        match dec_le(bytes, 4) {
            Some((n, rest)) => Some((n as u32, rest)),
            None => None,
        }
    }

    open spec fn listed(v: u32) -> bool {
        true
    }

    proof fn fits_by_length(v: u32) {
        le::lemma_le_len(v as nat, 4);
    }

    proof fn round_trip(v: u32, rest: Seq<u8>) {
        le::lemma_bounds();
        lemma_dec_le(v as nat, 4, rest);
    }

    fn encode(&self, out: &mut Vec<u8>) {
        append(out, &u32_bytes(*self));
    }

    fn decode(bytes: &[u8], pos: usize) -> (r: Option<(Self, usize)>) {
        match u32_of(from_place(bytes, pos)) {
            Some(n) => {
                assert(bytes@.skip(pos as int).skip(4) =~= bytes@.skip(pos + 4));
                Some((n, pos + 4))
            },
            None => None,
        }
    }
}

impl Coded for u64 {
    open spec fn fits(v: u64) -> bool {
        true
    }

    open spec fn enc(v: u64) -> Seq<u8> {
        le::le(v as nat, 8)
    }

    open spec fn dec(bytes: Seq<u8>) -> Option<(u64, Seq<u8>)> {
        match dec_le(bytes, 8) {
            Some((n, rest)) => Some((n as u64, rest)),
            None => None,
        }
    }

    open spec fn listed(v: u64) -> bool {
        true
    }

    proof fn fits_by_length(v: u64) {
        le::lemma_le_len(v as nat, 8);
    }

    proof fn round_trip(v: u64, rest: Seq<u8>) {
        le::lemma_bounds();
        lemma_dec_le(v as nat, 8, rest);
    }

    fn encode(&self, out: &mut Vec<u8>) {
        append(out, &u64_bytes(*self));
    }

    fn decode(bytes: &[u8], pos: usize) -> (r: Option<(Self, usize)>) {
        match u64_of(from_place(bytes, pos)) {
            Some(n) => {
                assert(bytes@.skip(pos as int).skip(8) =~= bytes@.skip(pos + 8));
                Some((n, pos + 8))
            },
            None => None,
        }
    }
}

impl Coded for String {
    open spec fn fits(v: Seq<char>) -> bool {
        encode_utf8(v).len() <= u64::MAX
    }

    open spec fn enc(v: Seq<char>) -> Seq<u8> {
        le::le(encode_utf8(v).len(), 8) + encode_utf8(v)
    }

    open spec fn dec(bytes: Seq<u8>) -> Option<(Seq<char>, Seq<u8>)> {
        if starts_with_text(bytes) {
            let end = 8 + le::le_value(bytes.take(8)) as int;
            Some((decode_utf8(bytes.subrange(8, end)), bytes.skip(end)))
        } else {
            None
        }
    }

    open spec fn listed(v: Seq<char>) -> bool {
        true
    }

    proof fn fits_by_length(v: Seq<char>) {
        le::lemma_le_len(encode_utf8(v).len(), 8);
    }

    proof fn round_trip(v: Seq<char>, rest: Seq<u8>) {
        let e = encode_utf8(v);
        let all = Self::enc(v) + rest;
        le::lemma_bounds();
        le::le_round_trip(e.len(), 8);
        assert(all.take(8) =~= le::le(e.len(), 8));
        assert(all.subrange(8, 8 + e.len() as int) =~= e);
        assert(all.skip(8 + e.len() as int) =~= rest);
        encode_utf8_valid_utf8(v);
        encode_utf8_decode_utf8(v);
    }

    fn encode(&self, out: &mut Vec<u8>) {
        append(out, &text_bytes(self));
    }

    fn decode(bytes: &[u8], pos: usize) -> (r: Option<(Self, usize)>) {
        let rest = from_place(bytes, pos);
        match text_of(rest) {
            Some(s) => {
                let length: u64 = le::read_le(rest, 0, 8);
                assert(rest@.subrange(0, 8) =~= rest@.take(8));
                let end: usize = pos + 8 + length as usize;
                assert(rest@.skip(8 + length as int) =~= bytes@.skip(end as int));
                Some((s, end))
            },
            None => None,
        }
    }
}

// ---------------------------------------------------------------------------
// Lists
// ---------------------------------------------------------------------------

pub open spec fn enc_items<T: Coded>(items: Seq<T::V>) -> Seq<u8>
    decreases items.len(),
{
    if items.len() == 0 {
        Seq::empty()
    } else {
        T::enc(items[0]) + enc_items::<T>(items.drop_first())
    }
}

pub open spec fn dec_items<T: Coded>(n: nat, bytes: Seq<u8>) -> Option<(Seq<T::V>, Seq<u8>)>
    decreases n,
{
    if n == 0 {
        Some((Seq::empty(), bytes))
    } else {
        match T::dec(bytes) {
            None => None,
            Some((v, rest)) => behind_items(
                seq![v],
                dec_items::<T>((n - 1) as nat, rest),
            ),
        }
    }
}

/// Items that were read, in front of those that follow.
pub open spec fn behind_items<V>(done: Seq<V>, next: Option<(Seq<V>, Seq<u8>)>) -> Option<
    (Seq<V>, Seq<u8>),
> {
    match next {
        None => None,
        Some((items, rest)) => Some((done + items, rest)),
    }
}

/// The bytes of a list: how many items, and then each.
pub open spec fn enc_list<T: Coded>(items: Seq<T::V>) -> Seq<u8> {
    le::le(items.len(), 8) + enc_items::<T>(items)
}

pub open spec fn dec_list<T: Coded>(bytes: Seq<u8>) -> Option<(Seq<T::V>, Seq<u8>)> {
    match dec_le(bytes, 8) {
        None => None,
        Some((n, rest)) => dec_items::<T>(n, rest),
    }
}

pub open spec fn list_fits<T: Coded>(items: Seq<T::V>) -> bool {
    items.len() <= u64::MAX && forall|i: int|
        0 <= i < items.len() ==> T::fits(#[trigger] items[i])
}

proof fn lemma_items_length<T: Coded>(items: Seq<T::V>)
    ensures
        items.len() <= enc_items::<T>(items).len(),
        forall|i: int|
            0 <= i < items.len() ==> T::enc(#[trigger] items[i]).len() <= enc_items::<T>(
                items,
            ).len(),
    decreases items.len(),
{
    if items.len() > 0 {
        let rest = items.drop_first();
        lemma_items_length::<T>(rest);
        T::fits_by_length(items[0]);
        assert forall|i: int| 0 <= i < items.len() implies T::enc(#[trigger] items[i]).len()
            <= enc_items::<T>(items).len() by {
            if i > 0 {
                assert(rest[i - 1] == items[i]);
            }
        }
    }
}

/// A list fits if its bytes can be counted in 64 bits.
pub proof fn list_fits_by_length<T: Coded>(items: Seq<T::V>)
    ensures
        enc_list::<T>(items).len() >= 8,
        (forall|i: int| 0 <= i < items.len() ==> T::listed(#[trigger] items[i])) && enc_list::<T>(
            items,
        ).len() <= u64::MAX ==> list_fits::<T>(items),
{
    le::lemma_le_len(items.len(), 8);
    lemma_items_length::<T>(items);
    if (forall|i: int| 0 <= i < items.len() ==> T::listed(#[trigger] items[i])) && enc_list::<T>(
        items,
    ).len() <= u64::MAX {
        assert forall|i: int| 0 <= i < items.len() implies T::fits(#[trigger] items[i]) by {
            T::fits_by_length(items[i]);
        }
    }
}

proof fn lemma_items_round_trip<T: Coded>(items: Seq<T::V>, rest: Seq<u8>)
    requires
        forall|i: int| 0 <= i < items.len() ==> T::fits(#[trigger] items[i]),
    ensures
        dec_items::<T>(items.len(), enc_items::<T>(items) + rest) == Some((items, rest)),
    decreases items.len(),
{
    if items.len() == 0 {
        assert(enc_items::<T>(items) + rest =~= rest);
        assert(items =~= Seq::empty());
    } else {
        let tail = items.drop_first();
        assert forall|i: int| 0 <= i < tail.len() implies T::fits(#[trigger] tail[i]) by {
            assert(T::fits(items[i + 1]));
        }
        lemma_items_round_trip::<T>(tail, rest);
        T::round_trip(items[0], enc_items::<T>(tail) + rest);
        assert(enc_items::<T>(items) + rest =~= T::enc(items[0]) + (enc_items::<T>(tail) + rest));
        assert(seq![items[0]] + tail =~= items);
    }
}

/// The bytes of a list give it back, whatever follows them.
pub proof fn list_round_trip<T: Coded>(items: Seq<T::V>, rest: Seq<u8>)
    requires
        list_fits::<T>(items),
    ensures
        dec_list::<T>(enc_list::<T>(items) + rest) == Some((items, rest)),
{
    le::lemma_bounds();
    lemma_dec_le(items.len(), 8, enc_items::<T>(items) + rest);
    assert(enc_list::<T>(items) + rest =~= le::le(items.len(), 8) + (enc_items::<T>(items) + rest));
    lemma_items_round_trip::<T>(items, rest);
}

/// Appends the bytes of a list.
pub fn encode_list<T: Coded>(items: &Vec<T>, out: &mut Vec<u8>)
    ensures
        final(out)@ == old(out)@ + enc_list::<T>(model::views(items@)),
{
    let ghost v = model::views(items@);
    let count: u64 = items.len() as u64;
    count.encode(out);
    let ghost start = out@;
    assert(v.skip(0) =~= v);
    let mut i: usize = 0;
    while i < items.len()
        invariant
            v == model::views(items@),
            i <= items.len(),
            out@ + enc_items::<T>(v.skip(i as int)) == start + enc_items::<T>(v),
        decreases items.len() - i,
    {
        let ghost before = out@;
        proof {
            assert(v.skip(i as int).drop_first() =~= v.skip(i + 1));
            assert(v.skip(i as int)[0] == items@[i as int]@);
        }
        items[i].encode(out);
        i = i + 1;
        assert(out@ + enc_items::<T>(v.skip(i as int)) =~= before + enc_items::<T>(
            v.skip(i - 1),
        ));
    }
    assert(v.skip(i as int) =~= Seq::empty());
    assert(out@ =~= start + enc_items::<T>(v));
    assert(out@ =~= old(out)@ + enc_list::<T>(v));
}

/// Reads a list at a place, and tells the place behind it.
pub fn decode_list<T: Coded>(bytes: &[u8], pos: usize) -> (r: Option<(Vec<T>, usize)>)
    requires
        pos <= bytes.len(),
    ensures
        match r {
            Some((items, p)) => p <= bytes.len() && dec_list::<T>(bytes@.skip(pos as int)) == Some(
                (model::views(items@), bytes@.skip(p as int)),
            ),
            None => dec_list::<T>(bytes@.skip(pos as int)) is None,
        },
{
    let (count, start) = match u64::decode(bytes, pos) {
        None => {
            return None;
        },
        Some((n, p)) => (n, p),
    };
    let ghost whole = dec_list::<T>(bytes@.skip(pos as int));
    let mut items: Vec<T> = Vec::new();
    let mut at: usize = start;
    let mut left: u64 = count;
    proof {
        let next = dec_items::<T>(count as nat, bytes@.skip(start as int));
        le::lemma_bounds();
        if bytes@.skip(pos as int).len() >= 8 {
            le::le_value_round_trip(bytes@.skip(pos as int).take(8));
        }
        assert(behind_items(Seq::<T::V>::empty(), next) == next) by {
            if let Some((vs, r)) = next {
                assert(Seq::<T::V>::empty() + vs =~= vs);
            }
        }
    }
    while left > 0
        invariant
            at <= bytes.len(),
            whole == dec_list::<T>(bytes@.skip(pos as int)),
            whole == behind_items(
                model::views(items@),
                dec_items::<T>(left as nat, bytes@.skip(at as int)),
            ),
        decreases left,
    {
        match T::decode(bytes, at) {
            None => {
                return None;
            },
            Some((v, p)) => {
                let ghost done = model::views(items@);
                let ghost next = dec_items::<T>((left - 1) as nat, bytes@.skip(p as int));
                items.push(v);
                at = p;
                left = left - 1;
                proof {
                    if let Some((vs, r)) = next {
                        assert(done.push(v@) + vs =~= done + (seq![v@] + vs));
                    }
                }
            },
        }
    }
    assert(model::views(items@) + Seq::<T::V>::empty() =~= model::views(items@));
    Some((items, at))
}

// ---------------------------------------------------------------------------
// Maps
// ---------------------------------------------------------------------------

pub open spec fn enc_entries<T: Coded>(names: Seq<Seq<char>>, map: Map<Seq<char>, T::V>) -> Seq<u8>
    decreases names.len(),
{
    if names.len() == 0 {
        Seq::empty()
    } else {
        String::enc(names[0]) + T::enc(map[names[0]]) + enc_entries::<T>(names.drop_first(), map)
    }
}

proof fn entries_fit_by_length<T: Coded>(names: Seq<Seq<char>>, map: Map<Seq<char>, T::V>)
    ensures
        names.len() <= enc_entries::<T>(names, map).len(),
        forall|i: int|
            0 <= i < names.len() ==> String::enc(#[trigger] names[i]).len() <= enc_entries::<T>(
                names,
                map,
            ).len() && T::enc(map[names[i]]).len() <= enc_entries::<T>(names, map).len(),
    decreases names.len(),
{
    if names.len() > 0 {
        let rest = names.drop_first();
        entries_fit_by_length::<T>(rest, map);
        String::fits_by_length(names[0]);
        T::fits_by_length(map[names[0]]);
        assert forall|i: int| 0 <= i < names.len() implies String::enc(#[trigger] names[i]).len()
            <= enc_entries::<T>(names, map).len() && T::enc(map[names[i]]).len()
            <= enc_entries::<T>(names, map).len() by {
            if i > 0 {
                assert(rest[i - 1] == names[i]);
            }
        }
    }
}

pub open spec fn dec_entries<T: Coded>(
    n: nat,
    bytes: Seq<u8>,
    map: Map<Seq<char>, T::V>,
) -> Option<(Map<Seq<char>, T::V>, Seq<u8>)>
    decreases n,
{
    if n == 0 {
        Some((map, bytes))
    } else {
        match String::dec(bytes) {
            None => None,
            Some((name, after_name)) => match T::dec(after_name) {
                None => None,
                Some((v, rest)) => dec_entries::<T>((n - 1) as nat, rest, map.insert(name, v)),
            },
        }
    }
}

proof fn lemma_entries_round_trip<T: Coded>(
    names: Seq<Seq<char>>,
    map: Map<Seq<char>, T::V>,
    done: Map<Seq<char>, T::V>,
    rest: Seq<u8>,
)
    requires
        forall|i: int|
            0 <= i < names.len() ==> String::fits(#[trigger] names[i]) && T::fits(map[names[i]]),
    ensures
        dec_entries::<T>(names.len(), enc_entries::<T>(names, map) + rest, done) == Some(
            (with_names(done, names, map), rest),
        ),
    decreases names.len(),
{
    if names.len() == 0 {
        assert(enc_entries::<T>(names, map) + rest =~= rest);
        assert(with_names(done, names, map) =~= done);
    } else {
        let name = names[0];
        let tail = names.drop_first();
        let more = enc_entries::<T>(tail, map) + rest;
        assert(String::fits(names[0]) && T::fits(map[names[0]]));
        assert forall|i: int| 0 <= i < tail.len() implies String::fits(#[trigger] tail[i])
            && T::fits(map[tail[i]]) by {
            assert(String::fits(names[i + 1]));
        }
        lemma_entries_round_trip::<T>(tail, map, done.insert(name, map[name]), rest);
        T::round_trip(map[name], more);
        String::round_trip(name, T::enc(map[name]) + more);
        assert(enc_entries::<T>(names, map) + rest =~= String::enc(name) + (T::enc(map[name])
            + more));
        lemma_with_names_step(done, names, map);
    }
}

/// A map with the values of further names taken from another.
pub open spec fn with_names<V>(
    done: Map<Seq<char>, V>,
    names: Seq<Seq<char>>,
    map: Map<Seq<char>, V>,
) -> Map<Seq<char>, V> {
    Map::new(
        |k: Seq<char>| done.contains_key(k) || names.contains(k),
        |k: Seq<char>|
            if names.contains(k) {
                map[k]
            } else {
                done[k]
            },
    )
}

/// Taking the first name ahead makes no difference.
pub proof fn lemma_with_names_step<V>(
    done: Map<Seq<char>, V>,
    names: Seq<Seq<char>>,
    map: Map<Seq<char>, V>,
)
    requires
        names.len() > 0,
    ensures
        with_names(done.insert(names[0], map[names[0]]), names.drop_first(), map) == with_names(
            done,
            names,
            map,
        ),
{
    let name = names[0];
    let tail = names.drop_first();
    let a = with_names(done.insert(name, map[name]), tail, map);
    let b = with_names(done, names, map);
    assert(names.contains(name));
    assert forall|k: Seq<char>| names.contains(k) <==> (k == name || #[trigger] tail.contains(k)) by {
        if tail.contains(k) {
            let i = choose|i: int| 0 <= i < tail.len() && tail[i] == k;
            assert(names[i + 1] == k);
        }
        if names.contains(k) {
            let i = choose|i: int| 0 <= i < names.len() && names[i] == k;
            if i > 0 {
                assert(tail[i - 1] == k);
            }
        }
    }
    assert(a =~= b);
}

impl<T: Coded> Coded for NameMap<T> {
    open spec fn fits(v: Map<Seq<char>, T::V>) -> bool {
        &&& names::lists(v, names::listing(v))
        &&& names::listing(v).len() <= u64::MAX
        &&& forall|k: Seq<char>| #[trigger] v.contains_key(k) ==> String::fits(k) && T::fits(v[k])
    }

    /// How many names, and then each name with its value, in the order of the
    /// names.
    open spec fn enc(v: Map<Seq<char>, T::V>) -> Seq<u8> {
        le::le(names::listing(v).len(), 8) + enc_entries::<T>(names::listing(v), v)
    }

    open spec fn dec(bytes: Seq<u8>) -> Option<(Map<Seq<char>, T::V>, Seq<u8>)> {
        match dec_le(bytes, 8) {
            None => None,
            Some((n, rest)) => dec_entries::<T>(n, rest, Map::empty()),
        }
    }

    open spec fn listed(v: Map<Seq<char>, T::V>) -> bool {
        &&& names::lists(v, names::listing(v))
        &&& forall|k: Seq<char>| #[trigger] v.contains_key(k) ==> T::listed(v[k])
    }

    proof fn fits_by_length(v: Map<Seq<char>, T::V>) {
        let list = names::listing(v);
        le::lemma_le_len(list.len(), 8);
        entries_fit_by_length::<T>(list, v);
        if Self::listed(v) && Self::enc(v).len() <= u64::MAX {
            assert forall|k: Seq<char>| #[trigger] v.contains_key(k) implies String::fits(k)
                && T::fits(v[k]) by {
                assert(list.contains(k));
                let i = choose|i: int| 0 <= i < list.len() && list[i] == k;
                assert(String::enc(list[i]).len() <= enc_entries::<T>(list, v).len());
                String::fits_by_length(k);
                T::fits_by_length(v[k]);
            }
        }
    }

    proof fn round_trip(v: Map<Seq<char>, T::V>, rest: Seq<u8>) {
        let list = names::listing(v);
        let more = enc_entries::<T>(list, v) + rest;
        le::lemma_bounds();
        lemma_dec_le(list.len(), 8, more);
        assert(Self::enc(v) + rest =~= le::le(list.len(), 8) + more);
        assert forall|i: int| 0 <= i < list.len() implies String::fits(#[trigger] list[i])
            && T::fits(v[list[i]]) by {
            assert(list.contains(list[i]));
            assert(v.contains_key(list[i]));
        }
        lemma_entries_round_trip::<T>(list, v, Map::empty(), rest);
        assert(with_names(Map::empty(), list, v) =~= v);
    }

    fn encode(&self, out: &mut Vec<u8>) {
        let ghost list = names::listing(self@);
        let count: usize = self.len();
        let n: u64 = count as u64;
        n.encode(out);
        let ghost start = out@;
        assert(list.skip(0) =~= list);
        let mut i: usize = 0;
        while i < count
            invariant
                list == names::listing(self@),
                count == list.len(),
                i <= count,
                out@ + enc_entries::<T>(list.skip(i as int), self@) == start + enc_entries::<T>(
                    list,
                    self@,
                ),
            decreases count - i,
        {
            let ghost before = out@;
            proof {
                assert(list.skip(i as int).drop_first() =~= list.skip(i + 1));
                assert(list.skip(i as int)[0] == list[i as int]);
            }
            self.name_at(i).encode(out);
            self.value_at(i).encode(out);
            i = i + 1;
            assert(out@ + enc_entries::<T>(list.skip(i as int), self@) =~= before
                + enc_entries::<T>(list.skip(i - 1), self@));
        }
        assert(list.skip(i as int) =~= Seq::empty());
        assert(out@ =~= start + enc_entries::<T>(list, self@));
        assert(out@ =~= old(out)@ + Self::enc(self@));
    }

    fn decode(bytes: &[u8], pos: usize) -> (r: Option<(Self, usize)>) {
        let (count, start) = match u64::decode(bytes, pos) {
            None => {
                return None;
            },
            Some((n, p)) => (n, p),
        };
        let ghost whole = Self::dec(bytes@.skip(pos as int));
        let mut map: NameMap<T> = NameMap::new();
        let mut at: usize = start;
        let mut left: u64 = count;
        proof {
            le::lemma_bounds();
            if bytes@.skip(pos as int).len() >= 8 {
                le::le_value_round_trip(bytes@.skip(pos as int).take(8));
            }
        }
        while left > 0
            invariant
                at <= bytes.len(),
                whole == Self::dec(bytes@.skip(pos as int)),
                whole == dec_entries::<T>(left as nat, bytes@.skip(at as int), map@),
            decreases left,
        {
            let (name, behind_name) = match String::decode(bytes, at) {
                None => {
                    return None;
                },
                Some((s, p)) => (s, p),
            };
            match T::decode(bytes, behind_name) {
                None => {
                    return None;
                },
                Some((v, p)) => {
                    map.insert(name, v);
                    at = p;
                    left = left - 1;
                },
            }
        }
        Some((map, at))
    }
}

// ---------------------------------------------------------------------------
// Values and rows
// ---------------------------------------------------------------------------

/// A signed number as the unsigned one with the same bits.
pub open spec fn unsigned(n: i64) -> nat {
    if n >= 0 {
        n as nat
    } else {
        (n + 0x1_0000_0000_0000_0000) as nat
    }
}

/// The signed number with the bits of an unsigned one.
pub open spec fn signed(n: nat) -> int {
    if n < 0x8000_0000_0000_0000 {
        n as int
    } else {
        n - 0x1_0000_0000_0000_0000
    }
}

impl Coded for i64 {
    open spec fn fits(v: i64) -> bool {
        true
    }

    open spec fn enc(v: i64) -> Seq<u8> {
        le::le(unsigned(v), 8)
    }

    open spec fn dec(bytes: Seq<u8>) -> Option<(i64, Seq<u8>)> {
        match dec_le(bytes, 8) {
            Some((n, rest)) => Some((signed(n) as i64, rest)),
            None => None,
        }
    }

    open spec fn listed(v: i64) -> bool {
        true
    }

    proof fn fits_by_length(v: i64) {
        le::lemma_le_len(unsigned(v), 8);
    }

    proof fn round_trip(v: i64, rest: Seq<u8>) {
        le::lemma_bounds();
        lemma_dec_le(unsigned(v), 8, rest);
    }

    fn encode(&self, out: &mut Vec<u8>) {
        let n: u64 = if *self >= 0 {
            *self as u64
        } else {
            (*self as i128 + 0x1_0000_0000_0000_0000) as u64
        };
        n.encode(out);
    }

    fn decode(bytes: &[u8], pos: usize) -> (r: Option<(Self, usize)>) {
        match u64::decode(bytes, pos) {
            None => None,
            Some((n, p)) => {
                proof {
                    le::lemma_bounds();
                    le::le_value_round_trip(bytes@.skip(pos as int).take(8));
                }
                let v: i64 = if n < 0x8000_0000_0000_0000 {
                    n as i64
                } else {
                    (n as i128 - 0x1_0000_0000_0000_0000) as i64
                };
                Some((v, p))
            },
        }
    }
}

impl Coded for Value {
    open spec fn fits(v: Val) -> bool {
        match v {
            Val::Bytes(b) => list_fits::<u8>(b),
            Val::Text(s) => String::fits(s),
            _ => true,
        }
    }

    /// The kind as a number, and then the value.
    open spec fn enc(v: Val) -> Seq<u8> {
        match v {
            Val::Null => u32::enc(0),
            Val::Int(n) => u32::enc(1) + i64::enc(n),
            Val::UInt(n) => u32::enc(2) + u64::enc(n),
            Val::Float(n) => u32::enc(3) + u32::enc(n),
            Val::Double(n) => u32::enc(4) + u64::enc(n),
            Val::Bytes(b) => u32::enc(5) + enc_list::<u8>(b),
            Val::Text(s) => u32::enc(6) + String::enc(s),
        }
    }

    open spec fn dec(bytes: Seq<u8>) -> Option<(Val, Seq<u8>)> {
        match u32::dec(bytes) {
            None => None,
            Some((tag, rest)) => if tag == 0 {
                Some((Val::Null, rest))
            } else if tag == 1 {
                match i64::dec(rest) {
                    Some((n, r)) => Some((Val::Int(n), r)),
                    None => None,
                }
            } else if tag == 2 {
                match u64::dec(rest) {
                    Some((n, r)) => Some((Val::UInt(n), r)),
                    None => None,
                }
            } else if tag == 3 {
                match u32::dec(rest) {
                    Some((n, r)) => Some((Val::Float(n), r)),
                    None => None,
                }
            } else if tag == 4 {
                match u64::dec(rest) {
                    Some((n, r)) => Some((Val::Double(n), r)),
                    None => None,
                }
            } else if tag == 5 {
                match dec_list::<u8>(rest) {
                    Some((b, r)) => Some((Val::Bytes(b), r)),
                    None => None,
                }
            } else if tag == 6 {
                match String::dec(rest) {
                    Some((s, r)) => Some((Val::Text(s), r)),
                    None => None,
                }
            } else {
                None
            },
        }
    }

    open spec fn listed(v: Val) -> bool {
        true
    }

    proof fn fits_by_length(v: Val) {
        u32::fits_by_length(0);
        u32::fits_by_length(1);
        u32::fits_by_length(2);
        u32::fits_by_length(3);
        u32::fits_by_length(4);
        u32::fits_by_length(5);
        u32::fits_by_length(6);
        match v {
            Val::Bytes(b) => {
                list_fits_by_length::<u8>(b);
            },
            Val::Text(s) => {
                String::fits_by_length(s);
            },
            _ => {},
        }
    }

    proof fn round_trip(v: Val, rest: Seq<u8>) {
        match v {
            Val::Null => {
                u32::round_trip(0, rest);
            },
            Val::Int(n) => {
                u32::round_trip(1, i64::enc(n) + rest);
                i64::round_trip(n, rest);
                assert(Self::enc(v) + rest =~= u32::enc(1) + (i64::enc(n) + rest));
            },
            Val::UInt(n) => {
                u32::round_trip(2, u64::enc(n) + rest);
                u64::round_trip(n, rest);
                assert(Self::enc(v) + rest =~= u32::enc(2) + (u64::enc(n) + rest));
            },
            Val::Float(n) => {
                u32::round_trip(3, u32::enc(n) + rest);
                u32::round_trip(n, rest);
                assert(Self::enc(v) + rest =~= u32::enc(3) + (u32::enc(n) + rest));
            },
            Val::Double(n) => {
                u32::round_trip(4, u64::enc(n) + rest);
                u64::round_trip(n, rest);
                assert(Self::enc(v) + rest =~= u32::enc(4) + (u64::enc(n) + rest));
            },
            Val::Bytes(b) => {
                u32::round_trip(5, enc_list::<u8>(b) + rest);
                list_round_trip::<u8>(b, rest);
                assert(Self::enc(v) + rest =~= u32::enc(5) + (enc_list::<u8>(b) + rest));
            },
            Val::Text(s) => {
                u32::round_trip(6, String::enc(s) + rest);
                String::round_trip(s, rest);
                assert(Self::enc(v) + rest =~= u32::enc(6) + (String::enc(s) + rest));
            },
        }
    }

    fn encode(&self, out: &mut Vec<u8>) {
        let tag: u32 = match self {
            Value::Null => 0,
            Value::Int(_) => 1,
            Value::UInt(_) => 2,
            Value::Float(_) => 3,
            Value::Double(_) => 4,
            Value::Bytes(_) => 5,
            Value::Text(_) => 6,
        };
        tag.encode(out);
        match self {
            Value::Null => {},
            Value::Int(n) => n.encode(out),
            Value::UInt(n) => n.encode(out),
            Value::Float(n) => n.encode(out),
            Value::Double(n) => n.encode(out),
            Value::Bytes(b) => {
                proof {
                    assert(model::views(b@) =~= b@);
                }
                encode_list(b, out);
            },
            Value::Text(s) => s.encode(out),
        }
        assert(out@ =~= old(out)@ + Self::enc(self@));
    }

    fn decode(bytes: &[u8], pos: usize) -> (r: Option<(Self, usize)>) {
        let (tag, at) = match u32::decode(bytes, pos) {
            None => {
                return None;
            },
            Some((n, p)) => (n, p),
        };
        if tag == 0 {
            Some((Value::Null, at))
        } else if tag == 1 {
            match i64::decode(bytes, at) {
                Some((n, p)) => Some((Value::Int(n), p)),
                None => None,
            }
        } else if tag == 2 {
            match u64::decode(bytes, at) {
                Some((n, p)) => Some((Value::UInt(n), p)),
                None => None,
            }
        } else if tag == 3 {
            match u32::decode(bytes, at) {
                Some((n, p)) => Some((Value::Float(n), p)),
                None => None,
            }
        } else if tag == 4 {
            match u64::decode(bytes, at) {
                Some((n, p)) => Some((Value::Double(n), p)),
                None => None,
            }
        } else if tag == 5 {
            match decode_list::<u8>(bytes, at) {
                Some((b, p)) => {
                    assert(model::views(b@) =~= b@);
                    Some((Value::Bytes(b), p))
                },
                None => None,
            }
        } else if tag == 6 {
            match String::decode(bytes, at) {
                Some((s, p)) => Some((Value::Text(s), p)),
                None => None,
            }
        } else {
            None
        }
    }
}

impl Coded for Row {
    open spec fn fits(v: RowV) -> bool {
        list_fits::<Value>(v.values)
    }

    open spec fn enc(v: RowV) -> Seq<u8> {
        u64::enc(v.id) + enc_list::<Value>(v.values)
    }

    open spec fn dec(bytes: Seq<u8>) -> Option<(RowV, Seq<u8>)> {
        match u64::dec(bytes) {
            None => None,
            Some((id, rest)) => match dec_list::<Value>(rest) {
                None => None,
                Some((values, r)) => Some((RowV { id, values }, r)),
            },
        }
    }

    open spec fn listed(v: RowV) -> bool {
        true
    }

    proof fn fits_by_length(v: RowV) {
        u64::fits_by_length(v.id);
        list_fits_by_length::<Value>(v.values);
    }

    proof fn round_trip(v: RowV, rest: Seq<u8>) {
        u64::round_trip(v.id, enc_list::<Value>(v.values) + rest);
        list_round_trip::<Value>(v.values, rest);
        assert(Self::enc(v) + rest =~= u64::enc(v.id) + (enc_list::<Value>(v.values) + rest));
    }

    fn encode(&self, out: &mut Vec<u8>) {
        self.id.encode(out);
        encode_list(&self.values, out);
        assert(out@ =~= old(out)@ + Self::enc(self@));
    }

    fn decode(bytes: &[u8], pos: usize) -> (r: Option<(Self, usize)>) {
        let (id, at) = match u64::decode(bytes, pos) {
            None => {
                return None;
            },
            Some((n, p)) => (n, p),
        };
        match decode_list::<Value>(bytes, at) {
            Some((values, p)) => Some((Row { id, values }, p)),
            None => None,
        }
    }
}

// ---------------------------------------------------------------------------
// Definitions
// ---------------------------------------------------------------------------

impl View for ColumnType {
    type V = ColumnType;

    open spec fn view(&self) -> ColumnType {
        *self
    }
}

/// The place of a column type among all of them.
pub open spec fn type_index(t: ColumnType) -> u32 {
    match t {
        ColumnType::Decimal => 0,
        ColumnType::Tiny => 1,
        ColumnType::Short => 2,
        ColumnType::Long => 3,
        ColumnType::Float => 4,
        ColumnType::Double => 5,
        ColumnType::Null => 6,
        ColumnType::Timestamp => 7,
        ColumnType::LongLong => 8,
        ColumnType::Int24 => 9,
        ColumnType::Date => 10,
        ColumnType::Time => 11,
        ColumnType::DateTime => 12,
        ColumnType::Year => 13,
        ColumnType::VarChar => 14,
        ColumnType::Bit => 15,
        ColumnType::Json => 16,
        ColumnType::NewDecimal => 17,
        ColumnType::Enum => 18,
        ColumnType::SetOf => 19,
        ColumnType::TinyBlob => 20,
        ColumnType::MediumBlob => 21,
        ColumnType::LongBlob => 22,
        ColumnType::Blob => 23,
        ColumnType::VarString => 24,
        ColumnType::String => 25,
        ColumnType::Geometry => 26,
    }
}

/// The column type at a place among all of them.
pub open spec fn type_at(i: u32) -> Option<ColumnType> {
    if i == 0 {
        Some(ColumnType::Decimal)
    } else if i == 1 {
        Some(ColumnType::Tiny)
    } else if i == 2 {
        Some(ColumnType::Short)
    } else if i == 3 {
        Some(ColumnType::Long)
    } else if i == 4 {
        Some(ColumnType::Float)
    } else if i == 5 {
        Some(ColumnType::Double)
    } else if i == 6 {
        Some(ColumnType::Null)
    } else if i == 7 {
        Some(ColumnType::Timestamp)
    } else if i == 8 {
        Some(ColumnType::LongLong)
    } else if i == 9 {
        Some(ColumnType::Int24)
    } else if i == 10 {
        Some(ColumnType::Date)
    } else if i == 11 {
        Some(ColumnType::Time)
    } else if i == 12 {
        Some(ColumnType::DateTime)
    } else if i == 13 {
        Some(ColumnType::Year)
    } else if i == 14 {
        Some(ColumnType::VarChar)
    } else if i == 15 {
        Some(ColumnType::Bit)
    } else if i == 16 {
        Some(ColumnType::Json)
    } else if i == 17 {
        Some(ColumnType::NewDecimal)
    } else if i == 18 {
        Some(ColumnType::Enum)
    } else if i == 19 {
        Some(ColumnType::SetOf)
    } else if i == 20 {
        Some(ColumnType::TinyBlob)
    } else if i == 21 {
        Some(ColumnType::MediumBlob)
    } else if i == 22 {
        Some(ColumnType::LongBlob)
    } else if i == 23 {
        Some(ColumnType::Blob)
    } else if i == 24 {
        Some(ColumnType::VarString)
    } else if i == 25 {
        Some(ColumnType::String)
    } else if i == 26 {
        Some(ColumnType::Geometry)
    } else {
        None
    }
}

fn index_of_type(t: ColumnType) -> (r: u32)
    ensures
        r == type_index(t),
{
    match t {
        ColumnType::Decimal => 0,
        ColumnType::Tiny => 1,
        ColumnType::Short => 2,
        ColumnType::Long => 3,
        ColumnType::Float => 4,
        ColumnType::Double => 5,
        ColumnType::Null => 6,
        ColumnType::Timestamp => 7,
        ColumnType::LongLong => 8,
        ColumnType::Int24 => 9,
        ColumnType::Date => 10,
        ColumnType::Time => 11,
        ColumnType::DateTime => 12,
        ColumnType::Year => 13,
        ColumnType::VarChar => 14,
        ColumnType::Bit => 15,
        ColumnType::Json => 16,
        ColumnType::NewDecimal => 17,
        ColumnType::Enum => 18,
        ColumnType::SetOf => 19,
        ColumnType::TinyBlob => 20,
        ColumnType::MediumBlob => 21,
        ColumnType::LongBlob => 22,
        ColumnType::Blob => 23,
        ColumnType::VarString => 24,
        ColumnType::String => 25,
        ColumnType::Geometry => 26,
    }
}

fn type_of_index(i: u32) -> (r: Option<ColumnType>)
    ensures
        r == type_at(i),
{
    match i {
        0 => Some(ColumnType::Decimal),
        1 => Some(ColumnType::Tiny),
        2 => Some(ColumnType::Short),
        3 => Some(ColumnType::Long),
        4 => Some(ColumnType::Float),
        5 => Some(ColumnType::Double),
        6 => Some(ColumnType::Null),
        7 => Some(ColumnType::Timestamp),
        8 => Some(ColumnType::LongLong),
        9 => Some(ColumnType::Int24),
        10 => Some(ColumnType::Date),
        11 => Some(ColumnType::Time),
        12 => Some(ColumnType::DateTime),
        13 => Some(ColumnType::Year),
        14 => Some(ColumnType::VarChar),
        15 => Some(ColumnType::Bit),
        16 => Some(ColumnType::Json),
        17 => Some(ColumnType::NewDecimal),
        18 => Some(ColumnType::Enum),
        19 => Some(ColumnType::SetOf),
        20 => Some(ColumnType::TinyBlob),
        21 => Some(ColumnType::MediumBlob),
        22 => Some(ColumnType::LongBlob),
        23 => Some(ColumnType::Blob),
        24 => Some(ColumnType::VarString),
        25 => Some(ColumnType::String),
        26 => Some(ColumnType::Geometry),
        _ => None,
    }
}

impl Coded for ColumnType {
    open spec fn fits(v: ColumnType) -> bool {
        true
    }

    open spec fn enc(v: ColumnType) -> Seq<u8> {
        u32::enc(type_index(v))
    }

    open spec fn dec(bytes: Seq<u8>) -> Option<(ColumnType, Seq<u8>)> {
        match u32::dec(bytes) {
            None => None,
            Some((i, rest)) => match type_at(i) {
                Some(t) => Some((t, rest)),
                None => None,
            },
        }
    }

    open spec fn listed(v: ColumnType) -> bool {
        true
    }

    proof fn fits_by_length(v: ColumnType) {
        u32::fits_by_length(type_index(v));
    }

    proof fn round_trip(v: ColumnType, rest: Seq<u8>) {
        u32::round_trip(type_index(v), rest);
    }

    fn encode(&self, out: &mut Vec<u8>) {
        index_of_type(*self).encode(out);
    }

    fn decode(bytes: &[u8], pos: usize) -> (r: Option<(Self, usize)>) {
        match u32::decode(bytes, pos) {
            None => None,
            Some((i, p)) => match type_of_index(i) {
                Some(t) => Some((t, p)),
                None => None,
            },
        }
    }
}

impl Coded for DefaultExpr {
    open spec fn fits(v: DefaultV) -> bool {
        match v {
            DefaultV::Value(x) => Value::fits(x),
            DefaultV::CurrentTimestamp => true,
        }
    }

    open spec fn enc(v: DefaultV) -> Seq<u8> {
        match v {
            DefaultV::Value(x) => u32::enc(0) + Value::enc(x),
            DefaultV::CurrentTimestamp => u32::enc(1),
        }
    }

    open spec fn dec(bytes: Seq<u8>) -> Option<(DefaultV, Seq<u8>)> {
        match u32::dec(bytes) {
            None => None,
            Some((tag, rest)) => if tag == 0 {
                match Value::dec(rest) {
                    Some((x, r)) => Some((DefaultV::Value(x), r)),
                    None => None,
                }
            } else if tag == 1 {
                Some((DefaultV::CurrentTimestamp, rest))
            } else {
                None
            },
        }
    }

    open spec fn listed(v: DefaultV) -> bool {
        true
    }

    proof fn fits_by_length(v: DefaultV) {
        u32::fits_by_length(0);
        u32::fits_by_length(1);
        if let DefaultV::Value(x) = v {
            Value::fits_by_length(x);
        }
    }

    proof fn round_trip(v: DefaultV, rest: Seq<u8>) {
        match v {
            DefaultV::Value(x) => {
                u32::round_trip(0, Value::enc(x) + rest);
                Value::round_trip(x, rest);
                assert(Self::enc(v) + rest =~= u32::enc(0) + (Value::enc(x) + rest));
            },
            DefaultV::CurrentTimestamp => {
                u32::round_trip(1, rest);
            },
        }
    }

    fn encode(&self, out: &mut Vec<u8>) {
        match self {
            DefaultExpr::Value(x) => {
                let tag: u32 = 0;
                tag.encode(out);
                x.encode(out);
            },
            DefaultExpr::CurrentTimestamp => {
                let tag: u32 = 1;
                tag.encode(out);
            },
        }
        assert(out@ =~= old(out)@ + Self::enc(self@));
    }

    fn decode(bytes: &[u8], pos: usize) -> (r: Option<(Self, usize)>) {
        let (tag, at) = match u32::decode(bytes, pos) {
            None => {
                return None;
            },
            Some((n, p)) => (n, p),
        };
        if tag == 0 {
            match Value::decode(bytes, at) {
                Some((x, p)) => Some((DefaultExpr::Value(x), p)),
                None => None,
            }
        } else if tag == 1 {
            Some((DefaultExpr::CurrentTimestamp, at))
        } else {
            None
        }
    }
}

/// The bytes of an optional default: whether there is one, and then it.
pub open spec fn enc_default(v: Option<DefaultV>) -> Seq<u8> {
    match v {
        None => seq![0u8],
        Some(d) => seq![1u8] + DefaultExpr::enc(d),
    }
}

pub open spec fn dec_default(bytes: Seq<u8>) -> Option<(Option<DefaultV>, Seq<u8>)> {
    if bytes.len() == 0 || bytes[0] > 1 {
        None
    } else if bytes[0] == 0 {
        Some((None, bytes.skip(1)))
    } else {
        match DefaultExpr::dec(bytes.skip(1)) {
            Some((d, rest)) => Some((Some(d), rest)),
            None => None,
        }
    }
}

proof fn lemma_default_round_trip(v: Option<DefaultV>, rest: Seq<u8>)
    requires
        match v {
            Some(d) => DefaultExpr::fits(d),
            None => true,
        },
    ensures
        dec_default(enc_default(v) + rest) == Some((v, rest)),
{
    match v {
        None => {
            assert((seq![0u8] + rest).skip(1) =~= rest);
        },
        Some(d) => {
            DefaultExpr::round_trip(d, rest);
            assert((enc_default(v) + rest).skip(1) =~= DefaultExpr::enc(d) + rest);
        },
    }
}

fn encode_default(v: &Option<DefaultExpr>, out: &mut Vec<u8>)
    ensures
        final(out)@ == old(out)@ + enc_default(model::view_opt(*v)),
{
    match v {
        None => {
            out.push(0u8);
        },
        Some(d) => {
            out.push(1u8);
            d.encode(out);
        },
    }
    assert(out@ =~= old(out)@ + enc_default(model::view_opt(*v)));
}

fn decode_default(bytes: &[u8], pos: usize) -> (r: Option<(Option<DefaultExpr>, usize)>)
    requires
        pos <= bytes.len(),
    ensures
        match r {
            Some((v, p)) => p <= bytes.len() && dec_default(bytes@.skip(pos as int)) == Some(
                (model::view_opt(v), bytes@.skip(p as int)),
            ),
            None => dec_default(bytes@.skip(pos as int)) is None,
        },
{
    if pos == bytes.len() {
        return None;
    }
    assert(bytes@.skip(pos as int).skip(1) =~= bytes@.skip(pos + 1));
    if bytes[pos] == 0 {
        Some((None, pos + 1))
    } else if bytes[pos] == 1 {
        match DefaultExpr::decode(bytes, pos + 1) {
            Some((d, p)) => Some((Some(d), p)),
            None => None,
        }
    } else {
        None
    }
}

impl Coded for Column {
    open spec fn fits(v: ColumnV) -> bool {
        &&& String::fits(v.name)
        &&& String::fits(v.table)
        &&& ColumnType::fits(v.col_type)
        &&& u32::fits(v.column_length)
        &&& u16::fits(v.charset)
        &&& u16::fits(v.flags)
        &&& u8::fits(v.decimals)
        &&& bool::fits(v.auto_increment)
        &&& (v.default_expr matches Some(d) ==> DefaultExpr::fits(d))
    }

    /// The fields one after the other.
    open spec fn enc(v: ColumnV) -> Seq<u8> {
        String::enc(v.name) + String::enc(v.table) + ColumnType::enc(v.col_type) + u32::enc(v.column_length) + u16::enc(v.charset) + u16::enc(v.flags) + u8::enc(v.decimals) + bool::enc(v.auto_increment) + enc_default(v.default_expr)
    }

    open spec fn dec(bytes: Seq<u8>) -> Option<(ColumnV, Seq<u8>)> {
        match String::dec(bytes) {
            None => None,
            Some((name, r0)) => match String::dec(r0) {
                    None => None,
                    Some((table, r1)) => match ColumnType::dec(r1) {
                            None => None,
                            Some((col_type, r2)) => match u32::dec(r2) {
                                    None => None,
                                    Some((column_length, r3)) => match u16::dec(r3) {
                                            None => None,
                                            Some((charset, r4)) => match u16::dec(r4) {
                                                    None => None,
                                                    Some((flags, r5)) => match u8::dec(r5) {
                                                            None => None,
                                                            Some((decimals, r6)) => match bool::dec(r6) {
                                                                    None => None,
                                                                    Some((auto_increment, r7)) => match dec_default(r7) {
                                                                            None => None,
                                                                            Some((default_expr, r8)) => Some((ColumnV { name, table, col_type, column_length, charset, flags, decimals, auto_increment, default_expr }, r8)),
                                                                        },
                                                                },
                                                        },
                                                },
                                        },
                                },
                        },
                },
        }
    }

    open spec fn listed(v: ColumnV) -> bool {
        true
    }

    proof fn fits_by_length(v: ColumnV) {
        String::fits_by_length(v.name);
        String::fits_by_length(v.table);
        if let Some(d) = v.default_expr {
            DefaultExpr::fits_by_length(d);
        }
    }

    proof fn round_trip(v: ColumnV, rest: Seq<u8>) {
        let t9 = rest;
        let t8 = enc_default(v.default_expr) + t9;
        let t7 = bool::enc(v.auto_increment) + t8;
        let t6 = u8::enc(v.decimals) + t7;
        let t5 = u16::enc(v.flags) + t6;
        let t4 = u16::enc(v.charset) + t5;
        let t3 = u32::enc(v.column_length) + t4;
        let t2 = ColumnType::enc(v.col_type) + t3;
        let t1 = String::enc(v.table) + t2;
        String::round_trip(v.name, t1);
        String::round_trip(v.table, t2);
        ColumnType::round_trip(v.col_type, t3);
        u32::round_trip(v.column_length, t4);
        u16::round_trip(v.charset, t5);
        u16::round_trip(v.flags, t6);
        u8::round_trip(v.decimals, t7);
        bool::round_trip(v.auto_increment, t8);
        lemma_default_round_trip(v.default_expr, t9);
        let s0 = String::enc(v.name);
        let s1 = s0 + String::enc(v.table);
        let s2 = s1 + ColumnType::enc(v.col_type);
        let s3 = s2 + u32::enc(v.column_length);
        let s4 = s3 + u16::enc(v.charset);
        let s5 = s4 + u16::enc(v.flags);
        let s6 = s5 + u8::enc(v.decimals);
        let s7 = s6 + bool::enc(v.auto_increment);
        lemma_regroup(s7, enc_default(v.default_expr), t9);
        lemma_regroup(s6, bool::enc(v.auto_increment), t8);
        lemma_regroup(s5, u8::enc(v.decimals), t7);
        lemma_regroup(s4, u16::enc(v.flags), t6);
        lemma_regroup(s3, u16::enc(v.charset), t5);
        lemma_regroup(s2, u32::enc(v.column_length), t4);
        lemma_regroup(s1, ColumnType::enc(v.col_type), t3);
        lemma_regroup(s0, String::enc(v.table), t2);
    }

    fn encode(&self, out: &mut Vec<u8>) {
        self.name.encode(out);
        self.table.encode(out);
        self.col_type.encode(out);
        self.column_length.encode(out);
        self.charset.encode(out);
        self.flags.encode(out);
        self.decimals.encode(out);
        self.auto_increment.encode(out);
        encode_default(&self.default_expr, out);
        assert(out@ =~= old(out)@ + Self::enc(self@));
    }

    fn decode(bytes: &[u8], pos: usize) -> (r: Option<(Self, usize)>) {
        let (name, p0) = match String::decode(bytes, pos) {
            None => {
                return None;
            },
            Some(found) => found,
        };
        let (table, p1) = match String::decode(bytes, p0) {
            None => {
                return None;
            },
            Some(found) => found,
        };
        let (col_type, p2) = match ColumnType::decode(bytes, p1) {
            None => {
                return None;
            },
            Some(found) => found,
        };
        let (column_length, p3) = match u32::decode(bytes, p2) {
            None => {
                return None;
            },
            Some(found) => found,
        };
        let (charset, p4) = match u16::decode(bytes, p3) {
            None => {
                return None;
            },
            Some(found) => found,
        };
        let (flags, p5) = match u16::decode(bytes, p4) {
            None => {
                return None;
            },
            Some(found) => found,
        };
        let (decimals, p6) = match u8::decode(bytes, p5) {
            None => {
                return None;
            },
            Some(found) => found,
        };
        let (auto_increment, p7) = match bool::decode(bytes, p6) {
            None => {
                return None;
            },
            Some(found) => found,
        };
        let (default_expr, p8) = match decode_default(bytes, p7) {
            None => {
                return None;
            },
            Some(found) => found,
        };
        Some((Column { name, table, col_type, column_length, charset, flags, decimals, auto_increment, default_expr }, p8))
    }
}

impl View for IndexType {
    type V = IndexType;

    open spec fn view(&self) -> IndexType {
        *self
    }
}

impl Coded for IndexType {
    open spec fn fits(v: IndexType) -> bool {
        true
    }

    open spec fn enc(v: IndexType) -> Seq<u8> {
        match v {
            IndexType::BTree => u32::enc(0),
            IndexType::Hash => u32::enc(1),
        }
    }

    open spec fn dec(bytes: Seq<u8>) -> Option<(IndexType, Seq<u8>)> {
        match u32::dec(bytes) {
            None => None,
            Some((tag, rest)) => if tag == 0 {
                Some((IndexType::BTree, rest))
            } else if tag == 1 {
                Some((IndexType::Hash, rest))
            } else {
                None
            },
        }
    }

    open spec fn listed(v: IndexType) -> bool {
        true
    }

    proof fn fits_by_length(v: IndexType) {
        u32::fits_by_length(0);
        u32::fits_by_length(1);
    }

    proof fn round_trip(v: IndexType, rest: Seq<u8>) {
        u32::round_trip(0, rest);
        u32::round_trip(1, rest);
    }

    fn encode(&self, out: &mut Vec<u8>) {
        let tag: u32 = match self {
            IndexType::BTree => 0,
            IndexType::Hash => 1,
        };
        tag.encode(out);
    }

    fn decode(bytes: &[u8], pos: usize) -> (r: Option<(Self, usize)>) {
        match u32::decode(bytes, pos) {
            None => None,
            Some((tag, p)) => {
                if tag == 0 {
                    Some((IndexType::BTree, p))
                } else if tag == 1 {
                    Some((IndexType::Hash, p))
                } else {
                    None
                }
            },
        }
    }
}

impl Coded for IndexDef {
    open spec fn fits(v: IndexDefV) -> bool {
        &&& String::fits(v.name)
        &&& IndexType::fits(v.index_type)
        &&& String::fits(v.table_name)
        &&& list_fits::<String>(v.columns)
        &&& bool::fits(v.unique)
    }

    /// The fields one after the other.
    open spec fn enc(v: IndexDefV) -> Seq<u8> {
        String::enc(v.name) + IndexType::enc(v.index_type) + String::enc(v.table_name) + enc_list::<String>(v.columns) + bool::enc(v.unique)
    }

    open spec fn dec(bytes: Seq<u8>) -> Option<(IndexDefV, Seq<u8>)> {
        match String::dec(bytes) {
            None => None,
            Some((name, r0)) => match IndexType::dec(r0) {
                    None => None,
                    Some((index_type, r1)) => match String::dec(r1) {
                            None => None,
                            Some((table_name, r2)) => match dec_list::<String>(r2) {
                                    None => None,
                                    Some((columns, r3)) => match bool::dec(r3) {
                                            None => None,
                                            Some((unique, r4)) => Some((IndexDefV { name, index_type, table_name, columns, unique }, r4)),
                                        },
                                },
                        },
                },
        }
    }

    open spec fn listed(v: IndexDefV) -> bool {
        true
    }

    proof fn fits_by_length(v: IndexDefV) {
        String::fits_by_length(v.name);
        String::fits_by_length(v.table_name);
        list_fits_by_length::<String>(v.columns);
    }

    proof fn round_trip(v: IndexDefV, rest: Seq<u8>) {
        let t5 = rest;
        let t4 = bool::enc(v.unique) + t5;
        let t3 = enc_list::<String>(v.columns) + t4;
        let t2 = String::enc(v.table_name) + t3;
        let t1 = IndexType::enc(v.index_type) + t2;
        String::round_trip(v.name, t1);
        IndexType::round_trip(v.index_type, t2);
        String::round_trip(v.table_name, t3);
        list_round_trip::<String>(v.columns, t4);
        bool::round_trip(v.unique, t5);
        let s0 = String::enc(v.name);
        let s1 = s0 + IndexType::enc(v.index_type);
        let s2 = s1 + String::enc(v.table_name);
        let s3 = s2 + enc_list::<String>(v.columns);
        lemma_regroup(s3, bool::enc(v.unique), t5);
        lemma_regroup(s2, enc_list::<String>(v.columns), t4);
        lemma_regroup(s1, String::enc(v.table_name), t3);
        lemma_regroup(s0, IndexType::enc(v.index_type), t2);
    }

    fn encode(&self, out: &mut Vec<u8>) {
        self.name.encode(out);
        self.index_type.encode(out);
        self.table_name.encode(out);
        encode_list(&self.columns, out);
        self.unique.encode(out);
        assert(out@ =~= old(out)@ + Self::enc(self@));
    }

    fn decode(bytes: &[u8], pos: usize) -> (r: Option<(Self, usize)>) {
        let (name, p0) = match String::decode(bytes, pos) {
            None => {
                return None;
            },
            Some(found) => found,
        };
        let (index_type, p1) = match IndexType::decode(bytes, p0) {
            None => {
                return None;
            },
            Some(found) => found,
        };
        let (table_name, p2) = match String::decode(bytes, p1) {
            None => {
                return None;
            },
            Some(found) => found,
        };
        let (columns, p3) = match decode_list::<String>(bytes, p2) {
            None => {
                return None;
            },
            Some(found) => found,
        };
        let (unique, p4) = match bool::decode(bytes, p3) {
            None => {
                return None;
            },
            Some(found) => found,
        };
        Some((IndexDef { name, index_type, table_name, columns, unique }, p4))
    }
}

impl Coded for TableDef {
    open spec fn fits(v: TableV) -> bool {
        &&& String::fits(v.name)
        &&& list_fits::<Column>(v.columns)
    }

    /// The fields one after the other.
    open spec fn enc(v: TableV) -> Seq<u8> {
        String::enc(v.name) + enc_list::<Column>(v.columns)
    }

    open spec fn dec(bytes: Seq<u8>) -> Option<(TableV, Seq<u8>)> {
        match String::dec(bytes) {
            None => None,
            Some((name, r0)) => match dec_list::<Column>(r0) {
                    None => None,
                    Some((columns, r1)) => Some((TableV { name, columns }, r1)),
                },
        }
    }

    open spec fn listed(v: TableV) -> bool {
        true
    }

    proof fn fits_by_length(v: TableV) {
        String::fits_by_length(v.name);
        list_fits_by_length::<Column>(v.columns);
    }

    proof fn round_trip(v: TableV, rest: Seq<u8>) {
        let t2 = rest;
        let t1 = enc_list::<Column>(v.columns) + t2;
        String::round_trip(v.name, t1);
        list_round_trip::<Column>(v.columns, t2);
        lemma_regroup(String::enc(v.name), enc_list::<Column>(v.columns), rest);
    }

    fn encode(&self, out: &mut Vec<u8>) {
        self.name.encode(out);
        encode_list(&self.columns, out);
        assert(out@ =~= old(out)@ + Self::enc(self@));
    }

    fn decode(bytes: &[u8], pos: usize) -> (r: Option<(Self, usize)>) {
        let (name, p0) = match String::decode(bytes, pos) {
            None => {
                return None;
            },
            Some(found) => found,
        };
        let (columns, p1) = match decode_list::<Column>(bytes, p0) {
            None => {
                return None;
            },
            Some(found) => found,
        };
        Some((TableDef { name, columns }, p1))
    }
}

impl Coded for IndexList {
    open spec fn fits(v: Seq<IndexDefV>) -> bool {
        list_fits::<IndexDef>(v)
    }

    open spec fn enc(v: Seq<IndexDefV>) -> Seq<u8> {
        enc_list::<IndexDef>(v)
    }

    open spec fn dec(bytes: Seq<u8>) -> Option<(Seq<IndexDefV>, Seq<u8>)> {
        dec_list::<IndexDef>(bytes)
    }

    open spec fn listed(v: Seq<IndexDefV>) -> bool {
        true
    }

    proof fn fits_by_length(v: Seq<IndexDefV>) {
        list_fits_by_length::<IndexDef>(v);
    }

    proof fn round_trip(v: Seq<IndexDefV>, rest: Seq<u8>) {
        list_round_trip::<IndexDef>(v, rest);
    }

    fn encode(&self, out: &mut Vec<u8>) {
        encode_list(&self.items, out);
    }

    fn decode(bytes: &[u8], pos: usize) -> (r: Option<(Self, usize)>) {
        match decode_list::<IndexDef>(bytes, pos) {
            Some((items, p)) => Some((IndexList { items }, p)),
            None => None,
        }
    }
}

impl Coded for DatabaseDef {
    open spec fn fits(v: DatabaseV) -> bool {
        &&& String::fits(v.name)
        &&& NameMap::<TableDef>::fits(v.tables)
        &&& NameMap::<IndexList>::fits(v.indexes)
    }

    /// The fields one after the other.
    open spec fn enc(v: DatabaseV) -> Seq<u8> {
        String::enc(v.name) + NameMap::<TableDef>::enc(v.tables) + NameMap::<IndexList>::enc(v.indexes)
    }

    open spec fn dec(bytes: Seq<u8>) -> Option<(DatabaseV, Seq<u8>)> {
        match String::dec(bytes) {
            None => None,
            Some((name, r0)) => match NameMap::<TableDef>::dec(r0) {
                    None => None,
                    Some((tables, r1)) => match NameMap::<IndexList>::dec(r1) {
                            None => None,
                            Some((indexes, r2)) => Some((DatabaseV { name, tables, indexes }, r2)),
                        },
                },
        }
    }

    open spec fn listed(v: DatabaseV) -> bool {
        NameMap::<TableDef>::listed(v.tables) && NameMap::<IndexList>::listed(v.indexes)
    }

    proof fn fits_by_length(v: DatabaseV) {
        String::fits_by_length(v.name);
        NameMap::<TableDef>::fits_by_length(v.tables);
        NameMap::<IndexList>::fits_by_length(v.indexes);
    }

    proof fn round_trip(v: DatabaseV, rest: Seq<u8>) {
        let t3 = rest;
        let t2 = NameMap::<IndexList>::enc(v.indexes) + t3;
        let t1 = NameMap::<TableDef>::enc(v.tables) + t2;
        String::round_trip(v.name, t1);
        NameMap::<TableDef>::round_trip(v.tables, t2);
        NameMap::<IndexList>::round_trip(v.indexes, t3);
        let s0 = String::enc(v.name);
        let s1 = s0 + NameMap::<TableDef>::enc(v.tables);
        lemma_regroup(s1, NameMap::<IndexList>::enc(v.indexes), t3);
        lemma_regroup(s0, NameMap::<TableDef>::enc(v.tables), t2);
    }

    fn encode(&self, out: &mut Vec<u8>) {
        self.name.encode(out);
        self.tables.encode(out);
        self.indexes.encode(out);
        assert(out@ =~= old(out)@ + Self::enc(self@));
    }

    fn decode(bytes: &[u8], pos: usize) -> (r: Option<(Self, usize)>) {
        let (name, p0) = match String::decode(bytes, pos) {
            None => {
                return None;
            },
            Some(found) => found,
        };
        let (tables, p1) = match NameMap::<TableDef>::decode(bytes, p0) {
            None => {
                return None;
            },
            Some(found) => found,
        };
        let (indexes, p2) = match NameMap::<IndexList>::decode(bytes, p1) {
            None => {
                return None;
            },
            Some(found) => found,
        };
        Some((DatabaseDef { name, tables, indexes }, p2))
    }
}

/// All lengths in a catalog fit.
#[verifier::opaque]
pub open spec fn catalog_fits(v: CatalogV) -> bool {
    &&& NameMap::<DatabaseDef>::fits(v.databases)
    &&& NameMap::<u64>::fits(v.sequences)
}

/// The bytes of a catalog: the databases and then the automatic numbers.
#[verifier::opaque]
pub open spec fn enc_catalog(v: CatalogV) -> Seq<u8> {
    NameMap::<DatabaseDef>::enc(v.databases) + NameMap::<u64>::enc(v.sequences)
}

#[verifier::opaque]
pub open spec fn dec_catalog(bytes: Seq<u8>) -> Option<(CatalogV, Seq<u8>)> {
    match NameMap::<DatabaseDef>::dec(bytes) {
        None => None,
        Some((databases, r0)) => match NameMap::<u64>::dec(r0) {
            None => None,
            Some((sequences, r1)) => Some((CatalogV { databases, sequences }, r1)),
        },
    }
}

impl Coded for Catalog {
    open spec fn fits(v: CatalogV) -> bool {
        catalog_fits(v)
    }

    open spec fn enc(v: CatalogV) -> Seq<u8> {
        enc_catalog(v)
    }

    open spec fn dec(bytes: Seq<u8>) -> Option<(CatalogV, Seq<u8>)> {
        dec_catalog(bytes)
    }

    open spec fn listed(v: CatalogV) -> bool {
        NameMap::<DatabaseDef>::listed(v.databases) && NameMap::<u64>::listed(v.sequences)
    }

    proof fn fits_by_length(v: CatalogV) {
        reveal(catalog_fits);
        reveal(enc_catalog);
        NameMap::<DatabaseDef>::fits_by_length(v.databases);
        NameMap::<u64>::fits_by_length(v.sequences);
    }

    proof fn round_trip(v: CatalogV, rest: Seq<u8>) {
        reveal(catalog_fits);
        reveal(enc_catalog);
        reveal(dec_catalog);
        let t1 = NameMap::<u64>::enc(v.sequences) + rest;
        NameMap::<DatabaseDef>::round_trip(v.databases, t1);
        NameMap::<u64>::round_trip(v.sequences, rest);
        lemma_regroup(
            NameMap::<DatabaseDef>::enc(v.databases),
            NameMap::<u64>::enc(v.sequences),
            rest,
        );
    }

    fn encode(&self, out: &mut Vec<u8>) {
        self.databases.encode(out);
        self.sequences.encode(out);
        proof {
            reveal(enc_catalog);
        }
        assert(out@ =~= old(out)@ + Self::enc(self@));
    }

    fn decode(bytes: &[u8], pos: usize) -> (r: Option<(Self, usize)>) {
        proof {
            reveal(dec_catalog);
        }
        let (databases, p0) = match NameMap::<DatabaseDef>::decode(bytes, pos) {
            None => {
                return None;
            },
            Some(found) => found,
        };
        match NameMap::<u64>::decode(bytes, p0) {
            None => None,
            Some((sequences, p1)) => Some((Catalog { databases, sequences }, p1)),
        }
    }
}

} // verus!
