//! Making a specific thing go wrong, so that a test's failure is the test's decision.
//!
//! A decoder never panics on bytes from the network: a malformed packet is logged and skipped. The
//! packets made here exist to hold decoders to that.

use vstd::prelude::*;

use crate::bridge::{byte_views, copy_bytes};

verus! {

/// Every proper prefix of `packet`, shortest first: the packet cut off after 0, 1, 2 … bytes.
///
/// A decoder that reads a length and then trusts it is found by exactly one of these.
pub fn truncations(packet: &[u8]) -> (prefixes: Vec<Vec<u8>>)
    ensures
        byte_views(prefixes@) == Seq::new(packet@.len(), |length: int| packet@.take(length)),
{
    let mut prefixes: Vec<Vec<u8>> = Vec::new();
    let mut current: Vec<u8> = Vec::new();
    let mut length: usize = 0;
    while length < packet.len()
        invariant
            length <= packet@.len(),
            current@ == packet@.take(length as int),
            prefixes@.len() == length,
            forall|k: int| 0 <= k < length ==> (#[trigger] prefixes@[k])@ == packet@.take(k),
        decreases packet@.len() - length,
    {
        prefixes.push(copy_bytes(&current));
        current.push(packet[length]);
        length = length + 1;
        assert(current@ =~= packet@.take(length as int));
    }
    assert(byte_views(prefixes@) =~= Seq::new(packet@.len(), |length: int| packet@.take(length)));
    prefixes
}

/// The byte that has only bit `bit` set, counted from the lowest.
pub open spec fn bit_mask(bit: int) -> u8 {
    if bit == 0 {
        1
    } else if bit == 1 {
        2
    } else if bit == 2 {
        4
    } else if bit == 3 {
        8
    } else if bit == 4 {
        16
    } else if bit == 5 {
        32
    } else if bit == 6 {
        64
    } else {
        128
    }
}

/// `packet` with one bit flipped, counted from the lowest bit of its first byte.
pub open spec fn flipped(packet: Seq<u8>, bit: int) -> Seq<u8> {
    packet.update(bit / 8, packet[bit / 8] ^ bit_mask(bit % 8))
}

fn mask_of(bit: u8) -> (mask: u8)
    requires
        bit < 8,
    ensures
        mask == bit_mask(bit as int),
{
    let table: [u8; 8] = [1, 2, 4, 8, 16, 32, 64, 128];
    table[bit as usize]
}

/// One copy of `packet` for each of `bits`, with that bit flipped. Empty for an empty packet, which
/// has no bit to flip.
pub fn bit_flips(packet: &Vec<u8>, bits: &Vec<u64>) -> (packets: Vec<Vec<u8>>)
    requires
        packet@.len() > 0 ==> forall|k: int|
            0 <= k < bits@.len() ==> #[trigger] bits@[k] < packet@.len() * 8,
    ensures
        byte_views(packets@) == (if packet@.len() == 0 {
            Seq::empty()
        } else {
            bits@.map_values(|bit: u64| flipped(packet@, bit as int))
        }),
{
    let mut packets: Vec<Vec<u8>> = Vec::new();
    if packet.len() == 0 {
        assert(byte_views(packets@) =~= Seq::<Seq<u8>>::empty());
        return packets;
    }
    let mut index: usize = 0;
    while index < bits.len()
        invariant
            index <= bits@.len(),
            packet@.len() > 0,
            forall|k: int| 0 <= k < bits@.len() ==> #[trigger] bits@[k] < packet@.len() * 8,
            packets@.len() == index,
            forall|k: int|
                0 <= k < index ==> (#[trigger] packets@[k])@ == flipped(packet@, bits@[k] as int),
        decreases bits@.len() - index,
    {
        let bit: u64 = bits[index];
        let mut copy = copy_bytes(packet);
        let total: usize = copy.len();
        assert(bits@[index as int] < packet@.len() * 8);
        assert(bit / 8 < total);
        let place: usize = (bit / 8) as usize;
        let mask: u8 = mask_of((bit % 8) as u8);
        let changed: u8 = copy[place] ^ mask;
        copy.set(place, changed);
        packets.push(copy);
        index = index + 1;
    }
    assert(byte_views(packets@) =~= bits@.map_values(|bit: u64| flipped(packet@, bit as int)));
    packets
}

/// A flipped packet differs from the packet in exactly one byte, and there in exactly one bit.
pub proof fn lemma_one_bit_is_flipped(packet: Seq<u8>, bit: int)
    requires
        0 <= bit < packet.len() * 8,
    ensures
        flipped(packet, bit).len() == packet.len(),
        forall|k: int|
            0 <= k < packet.len() && k != bit / 8 ==> #[trigger] flipped(packet, bit)[k]
                == packet[k],
        flipped(packet, bit)[bit / 8] ^ packet[bit / 8] == bit_mask(bit % 8),
        flipped(packet, bit) != packet,
{
    let byte = packet[bit / 8];
    let mask = bit_mask(bit % 8);
    assert((byte ^ mask) ^ byte == mask) by (bit_vector);
    assert(byte ^ byte == 0) by (bit_vector);
    assert(flipped(packet, bit)[bit / 8] == byte ^ mask);
}

/// Flipping the same bit twice gives the packet back.
pub proof fn lemma_flipping_twice_restores(packet: Seq<u8>, bit: int)
    requires
        0 <= bit < packet.len() * 8,
    ensures
        flipped(flipped(packet, bit), bit) == packet,
{
    let byte = packet[bit / 8];
    let mask = bit_mask(bit % 8);
    assert((byte ^ mask) ^ mask == byte) by (bit_vector);
    assert(flipped(flipped(packet, bit), bit) =~= packet);
}

/// The lowest byte of each draw.
pub open spec fn low_bytes(draws: Seq<u64>) -> Seq<u8> {
    draws.map_values(|draw: u64| (draw % 256) as u8)
}

/// Packets of random bytes: for each of `draws` one packet, whose bytes are the lowest bytes of the
/// draws.
pub fn garbage(draws: &Vec<Vec<u64>>) -> (packets: Vec<Vec<u8>>)
    ensures
        byte_views(packets@) == draws@.map_values(|list: Vec<u64>| low_bytes(list@)),
{
    let mut packets: Vec<Vec<u8>> = Vec::new();
    let mut index: usize = 0;
    while index < draws.len()
        invariant
            index <= draws@.len(),
            packets@.len() == index,
            forall|k: int|
                0 <= k < index ==> (#[trigger] packets@[k])@ == low_bytes(draws@[k]@),
        decreases draws@.len() - index,
    {
        let list = &draws[index];
        let mut bytes: Vec<u8> = Vec::new();
        let mut at: usize = 0;
        while at < list.len()
            invariant
                at <= list@.len(),
                bytes@ == low_bytes(list@.take(at as int)),
            decreases list@.len() - at,
        {
            bytes.push((list[at] % 256) as u8);
            at = at + 1;
            assert(bytes@ =~= low_bytes(list@.take(at as int)));
        }
        assert(list@.take(at as int) =~= list@);
        packets.push(bytes);
        index = index + 1;
    }
    assert(byte_views(packets@) =~= draws@.map_values(|list: Vec<u64>| low_bytes(list@)));
    packets
}

/// Different bits make different packets.
pub proof fn lemma_different_bits_differ(packet: Seq<u8>, one: int, other: int)
    requires
        0 <= one < packet.len() * 8,
        0 <= other < packet.len() * 8,
        one != other,
    ensures
        flipped(packet, one) != flipped(packet, other),
{
    lemma_one_bit_is_flipped(packet, one);
    lemma_one_bit_is_flipped(packet, other);
    let left = flipped(packet, one);
    let right = flipped(packet, other);
    if one / 8 == other / 8 {
        assert(one % 8 != other % 8);
        assert(left[one / 8] ^ packet[one / 8] != right[one / 8] ^ packet[one / 8]);
    } else {
        let a = packet[one / 8];
        let b = left[one / 8];
        assert(b ^ a != 0);
        assert(b ^ a != 0 ==> a != b) by (bit_vector);
        assert(right[one / 8] == packet[one / 8]);
    }
}

/// Garbage is as many bytes as there are draws, each what its draw leaves over whole multiples of
/// 256.
pub proof fn lemma_garbage_is_drawn(draws: Seq<u64>, at: int, whole: int, low: u8)
    requires
        0 <= at < draws.len(),
        draws[at] == 256 * whole + low,
    ensures
        low_bytes(draws).len() == draws.len(),
        low_bytes(draws)[at] == low,
{
}

/// The bits of a byte are counted from the lowest: each weighs twice the one before.
pub proof fn lemma_bits_are_counted_from_the_lowest(bit: int)
    requires
        0 <= bit < 7,
    ensures
        bit_mask(0) == 1,
        bit_mask(bit + 1) == 2 * bit_mask(bit),
{
}

} // verus!
