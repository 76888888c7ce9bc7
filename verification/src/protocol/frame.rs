//! Packets: a header of four bytes, then the payload.

use vstd::prelude::*;

use crate::le;

verus! {

/// A packet: its place in the exchange, and what it holds.
#[derive(Debug)]
pub struct Packet {
    pub seq_id: u8,
    pub payload: Vec<u8>,
}

/// What a `Packet` stands for.
#[verifier::ext_equal]
pub struct PacketV {
    pub seq_id: u8,
    pub payload: Seq<u8>,
}

impl View for Packet {
    type V = PacketV;

    open spec fn view(&self) -> PacketV {
        PacketV { seq_id: self.seq_id, payload: self.payload@ }
    }
}

/// The header of a packet: the length of the payload in three bytes, and the
/// place of the packet in the exchange.
pub open spec fn header(len: nat, seq_id: u8) -> Seq<u8> {
    le::le(len, 3) + seq![seq_id]
}

/// The bytes of a packet.
pub open spec fn packet_bytes(p: PacketV) -> Seq<u8> {
    header(p.payload.len(), p.seq_id) + p.payload
}

/// The packet that bytes start with, and what follows it.
pub open spec fn packet_read(bytes: Seq<u8>) -> Option<(PacketV, Seq<u8>)> {
    if bytes.len() < 4 {
        None
    } else {
        let n = le::le_value(bytes.take(3)) as int;
        if bytes.len() < 4 + n {
            None
        } else {
            Some(
                (
                    PacketV { seq_id: bytes[3], payload: bytes.subrange(4, 4 + n) },
                    bytes.skip(4 + n),
                ),
            )
        }
    }
}

/// A packet starts with the length of its payload in three bytes, the lowest first, and
/// its place; then comes the payload.
pub proof fn packets_start_with_length_and_place(p: PacketV)
    requires
        p.payload.len() < 16777216,
    ensures
        packet_bytes(p).len() == p.payload.len() + 4,
        packet_bytes(p)[0] == p.payload.len() % 256,
        packet_bytes(p)[1] == p.payload.len() / 256 % 256,
        packet_bytes(p)[2] == p.payload.len() / 65536,
        packet_bytes(p)[3] == p.seq_id,
        packet_bytes(p).skip(4) == p.payload,
{
    let n = p.payload.len();
    le::lowest_byte_comes_first(n);
    assert(n / 65536 % 256 == n / 65536);
    assert(packet_bytes(p).skip(4) =~= p.payload);
}

/// A packet whose length fits the header is read as it was written.
pub proof fn packet_round_trip(p: PacketV, rest: Seq<u8>)
    requires
        p.payload.len() < 0x100_0000,
    ensures
        packet_read(packet_bytes(p) + rest) == Some((p, rest)),
{
    let bytes = packet_bytes(p) + rest;
    let n = p.payload.len();
    le::lemma_bounds();
    le::le_round_trip(n, 3);
    assert(bytes.take(3) =~= le::le(n, 3));
    assert(bytes.subrange(4, 4 + n as int) =~= p.payload);
    assert(bytes.skip(4 + n as int) =~= rest);
}

/// Appends a packet.
pub fn write_payload(payload: &mut Vec<u8>, seq_id: u8, data: &[u8])
    ensures
        final(payload)@ == old(payload)@ + packet_bytes(PacketV { seq_id, payload: data@ }),
{
    le::push_le(payload, data.len() as u64, 3);
    payload.push(seq_id);
    payload.extend_from_slice(data);
    assert(payload@ =~= old(payload)@ + packet_bytes(PacketV { seq_id, payload: data@ }));
}

/// The length of the payload and the place of the packet, from its header.
pub fn read_header(bytes: &[u8]) -> (r: (usize, u8))
    requires
        bytes.len() >= 4,
    ensures
        r.0 == le::le_value(bytes@.take(3)),
        r.1 == bytes@[3],
{
    let len: u64 = le::read_le(bytes, 0, 3);
    proof {
        assert(bytes@.subrange(0, 3) =~= bytes@.take(3));
        le::le_value_round_trip(bytes@.take(3));
        le::lemma_bounds();
    }
    (len as usize, bytes[3])
}

/// Appends one packet for each payload, with ascending places in the exchange, and
/// returns the next place.
pub fn write_payloads(out: &mut Vec<u8>, seq_id: u8, payloads: &Vec<Vec<u8>>) -> (r: u8)
    ensures
        final(out)@ == old(out)@ + packets_bytes(seq_id, crate::model::views(payloads@)),
        r == seq_after(seq_id, payloads@.len()),
{
    let ghost all = crate::model::views(payloads@);
    let mut seq: u8 = seq_id;
    let mut i: usize = 0;
    assert(out@ + packets_bytes(seq_id, all.take(0)) =~= out@);
    while i < payloads.len()
        invariant
            all == crate::model::views(payloads@),
            i <= payloads.len(),
            out@ == old(out)@ + packets_bytes(seq_id, all.take(i as int)),
            seq == seq_after(seq_id, i as nat),
        decreases payloads.len() - i,
    {
        let ghost before = out@;
        proof {
            assert(all.take(i + 1).drop_last() =~= all.take(i as int));
            assert(all.take(i + 1).last() == payloads@[i as int]@);
        }
        write_payload(out, seq, payloads[i].as_slice());
        assert(out@ =~= old(out)@ + packets_bytes(seq_id, all.take(i + 1)));
        seq = seq.wrapping_add(1);
        i = i + 1;
    }
    assert(all.take(all.len() as int) =~= all);
    seq
}

/// The place in the exchange after some packets; places start anew after 255.
pub open spec fn seq_after(seq_id: u8, count: nat) -> u8
    decreases count,
{
    if count == 0 {
        seq_id
    } else {
        seq_after(seq_id, (count - 1) as nat).wrapping_add(1)
    }
}

/// Packets have consecutive places, modulo 256.
pub proof fn places_are_consecutive(seq_id: u8, count: nat)
    ensures
        seq_after(seq_id, count) == (seq_id + count) % 256,
    decreases count,
{
    if count > 0 {
        places_are_consecutive(seq_id, (count - 1) as nat);
    }
}

/// The bytes of one packet for each payload.
pub open spec fn packets_bytes(seq_id: u8, payloads: Seq<Seq<u8>>) -> Seq<u8>
    decreases payloads.len(),
{
    if payloads.len() == 0 {
        Seq::empty()
    } else {
        packets_bytes(seq_id, payloads.drop_last()) + packet_bytes(
            PacketV {
                seq_id: seq_after(seq_id, (payloads.len() - 1) as nat),
                payload: payloads.last(),
            },
        )
    }
}

} // verus!
