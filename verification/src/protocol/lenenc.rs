//! Numbers and strings of variable length.

use vstd::prelude::*;

use crate::le;

verus! {

/// The bytes of a number: one byte for a small one, else a mark and two, three or
/// eight bytes.
pub open spec fn lenenc(v: nat) -> Seq<u8> {
    if v < 251 {
        seq![v as u8]
    } else if v < 0x1_0000 {
        seq![0xFCu8] + le::le(v, 2)
    } else if v < 0x100_0000 {
        seq![0xFDu8] + le::le(v, 3)
    } else {
        seq![0xFEu8] + le::le(v, 8)
    }
}

/// The bytes of a string: its length, then the string.
pub open spec fn lenenc_bytes(data: Seq<u8>) -> Seq<u8> {
    lenenc(data.len()) + data
}

/// The number that bytes start with and how many bytes it takes. Nothing is read
/// from no bytes; there is none where its bytes are cut off.
pub open spec fn lenenc_read(data: Seq<u8>) -> Option<(nat, nat)> {
    if data.len() == 0 {
        Some((0, 0))
    } else if data[0] == 0xFC {
        marked(data, 2)
    } else if data[0] == 0xFD {
        marked(data, 3)
    } else if data[0] == 0xFE {
        marked(data, 8)
    } else {
        Some((data[0] as nat, 1))
    }
}

/// A number of `n` bytes behind its mark.
pub open spec fn marked(data: Seq<u8>, n: nat) -> Option<(nat, nat)> {
    if data.len() < 1 + n {
        None
    } else {
        Some((le::le_value(data.subrange(1, 1 + n as int)), 1 + n))
    }
}

/// A number is read as it was written, whatever follows it.
pub proof fn lenenc_round_trip(v: nat, rest: Seq<u8>)
    requires
        v <= u64::MAX,
    ensures
        lenenc_read(lenenc(v) + rest) == Some((v, lenenc(v).len())),
        0 < lenenc(v).len() <= 9,
        lenenc(v)[0] != 0xFB,
        lenenc(v)[0] != 0xFF,
        lenenc(v)[0] == 0xFE <==> v >= 0x100_0000,
{
    let all = lenenc(v) + rest;
    le::lemma_bounds();
    if v < 251 {
    } else if v < 0x1_0000 {
        le::le_round_trip(v, 2);
        assert(all.subrange(1, 3) =~= le::le(v, 2));
    } else if v < 0x100_0000 {
        le::le_round_trip(v, 3);
        assert(all.subrange(1, 4) =~= le::le(v, 3));
    } else {
        le::le_round_trip(v, 8);
        assert(all.subrange(1, 9) =~= le::le(v, 8));
    }
}

/// A number below 251 is one byte. A larger one has a mark in front: 252 and two bytes,
/// 253 and three, or 254 and eight, the lowest first.
pub proof fn numbers_are_marked_by_size(v: nat)
    requires
        v <= u64::MAX,
    ensures
        v < 251 ==> lenenc(v) == seq![v as u8],
        251 <= v < 65536 ==> lenenc(v) == seq![252u8, (v % 256) as u8, (v / 256) as u8],
        65536 <= v < 16777216 ==> lenenc(v) == seq![
            253u8,
            (v % 256) as u8,
            (v / 256 % 256) as u8,
            (v / 65536) as u8,
        ],
        16777216 <= v ==> lenenc(v).len() == 9 && lenenc(v)[0] == 254 && le::le_value(
            lenenc(v).skip(1),
        ) == v,
{
    le::lowest_byte_comes_first(v);
    le::lemma_bounds();
    if 251 <= v < 65536 {
        assert(v / 256 % 256 == v / 256);
        assert(lenenc(v) =~= seq![252u8, (v % 256) as u8, (v / 256) as u8]);
    } else if 65536 <= v < 16777216 {
        assert(v / 65536 % 256 == v / 65536);
        assert(lenenc(v) =~= seq![
            253u8,
            (v % 256) as u8,
            (v / 256 % 256) as u8,
            (v / 65536) as u8,
        ]);
    } else if 16777216 <= v {
        le::le_round_trip(v, 8);
        assert(lenenc(v).skip(1) =~= le::le(v, 8));
    }
}

/// The bytes of a number.
pub fn lenenc_int_bytes(v: u64) -> (r: Vec<u8>)
    ensures
        r@ == lenenc(v as nat),
{
    let mut out: Vec<u8> = Vec::new();
    if v < 251 {
        out.push(v as u8);
    } else if v < 0x1_0000 {
        out.push(0xFC);
        le::push_le(&mut out, v, 2);
    } else if v < 0x100_0000 {
        out.push(0xFD);
        le::push_le(&mut out, v, 3);
    } else {
        out.push(0xFE);
        le::push_le(&mut out, v, 8);
    }
    assert(out@ =~= lenenc(v as nat));
    out
}

/// The bytes of a string: its length, then the string.
pub fn lenenc_str(data: &[u8]) -> (r: Vec<u8>)
    ensures
        r@ == lenenc_bytes(data@),
{
    let mut out = lenenc_int_bytes(data.len() as u64);
    out.extend_from_slice(data);
    assert(out@ =~= lenenc_bytes(data@));
    out
}

/// The number that bytes start with and how many bytes it takes.
pub fn read_lenenc(data: &[u8], pos: usize) -> (r: Option<(u64, usize)>)
    requires
        pos <= data.len(),
    ensures
        match r {
            Some((v, n)) => lenenc_read(data@.skip(pos as int)) == Some((v as nat, n as nat)) && pos
                + n <= data.len(),
            None => lenenc_read(data@.skip(pos as int)) is None,
        },
{
    let ghost rest = data@.skip(pos as int);
    let left: usize = data.len() - pos;
    if left == 0 {
        return Some((0, 0));
    }
    assert(rest[0] == data@[pos as int]);
    let first: u8 = data[pos];
    let n: usize = if first == 0xFC {
        2
    } else if first == 0xFD {
        3
    } else if first == 0xFE {
        8
    } else {
        return Some((first as u64, 1));
    };
    if left < 1 + n {
        return None;
    }
    let v: u64 = le::read_le(data, pos + 1, n);
    assert(data@.subrange(pos + 1, pos + 1 + n) =~= rest.subrange(1, 1 + n));
    Some((v, 1 + n))
}

} // verus!
