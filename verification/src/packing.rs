//! Byte strings on the wire: a length in groups of seven bits, then the bytes.

use vstd::prelude::*;

verus! {

/// `value` in groups of seven bits, lowest first; every group but the last has its top bit set.
pub open spec fn varint(value: nat) -> Seq<u8>
    decreases value,
{
    if value < 128 {
        seq![value as u8]
    } else {
        seq![(128 + value % 128) as u8] + varint(value / 128)
    }
}

/// A byte string on the wire.
pub open spec fn packed(bytes: Seq<u8>) -> Seq<u8> {
    varint(bytes.len()) + bytes
}

/// How many bytes the number at the start of `wire` takes: up to the first with a clear top bit.
pub open spec fn varint_length(wire: Seq<u8>) -> nat
    decreases wire.len(),
{
    if wire.len() == 0 {
        0
    } else if wire[0] < 128 {
        1
    } else {
        1 + varint_length(wire.skip(1))
    }
}

/// The number that groups of seven bits make, lowest first.
pub open spec fn varint_value(groups: Seq<u8>) -> nat
    decreases groups.len(),
{
    if groups.len() == 0 {
        0
    } else {
        (groups[0] % 128) as nat + 128 * varint_value(groups.skip(1))
    }
}

/// The most groups of seven bits that a length takes.
pub open spec fn most_groups() -> nat {
    ((usize::BITS + 6) / 7) as nat
}

/// The byte string at the start of `wire`, if there is one: a length that ends, that is not
/// written in too many groups and that a `usize` can hold, and as many bytes behind it.
pub open spec fn unpacked(wire: Seq<u8>) -> Option<Seq<u8>> {
    let used = varint_length(wire);
    let length = varint_value(wire.take(used as int));
    if 1 <= used <= most_groups() && wire[used - 1] < 128 && length <= usize::MAX && used + length
        <= wire.len() {
        Some(wire.subrange(used as int, (used + length) as int))
    } else {
        None
    }
}

/// `postcard::to_allocvec` of a `Vec<u8>`, which never fails: the length in groups of seven bits,
/// lowest first, the top bit set on all but the last, and then the bytes.
#[verifier::external_body]
pub(crate) fn pack(bytes: &Vec<u8>) -> (wire: Option<Vec<u8>>)
    ensures
        match wire {
            Some(sent) => sent@ == packed(bytes@),
            None => false,
        },
{
    postcard::to_allocvec(bytes).ok()
}

/// `postcard::from_bytes` to a `Vec<u8>`: the byte string that the wire begins with, whatever
/// stands behind it; `None` for its error, where the length does not end, is written in too many
/// groups, is larger than a `usize` or than what follows it.
#[verifier::external_body]
pub(crate) fn unpack(wire: &Vec<u8>) -> (bytes: Option<Vec<u8>>)
    ensures
        match bytes {
            Some(read) => unpacked(wire@) == Some(read@),
            None => unpacked(wire@) is None,
        },
{
    postcard::from_bytes::<Vec<u8>>(wire).ok()
}

/// A number takes the groups that its value fills, and reads back whatever follows it.
proof fn lemma_varint(value: nat, tail: Seq<u8>)
    ensures
        varint(value).len() >= 1,
        varint_length(varint(value) + tail) == varint(value).len(),
        varint_value(varint(value)) == value,
        varint(value).last() < 128,
    decreases value,
{
    let wire = varint(value) + tail;
    if value < 128 {
        assert(wire[0] == value as u8);
        assert(varint(value).skip(1) =~= Seq::empty());
        assert(varint_value(varint(value).skip(1)) == 0);
    } else {
        let first = (128 + value % 128) as u8;
        let rest = varint(value / 128);
        lemma_varint(value / 128, tail);
        assert(wire[0] == first);
        assert(wire.skip(1) =~= rest + tail);
        assert(varint(value).skip(1) =~= rest);
        assert(varint(value).last() == rest.last());
        assert(first % 128 == value % 128);
    }
}

/// A number below 128 to the power of `groups` takes at most that many groups.
proof fn lemma_varint_is_short(value: nat, groups: nat)
    requires
        groups >= 1,
        value < vstd::arithmetic::power::pow(128, groups),
    ensures
        varint(value).len() <= groups,
    decreases groups,
{
    reveal(vstd::arithmetic::power::pow);
    if value >= 128 {
        if groups == 1 {
            assert(vstd::arithmetic::power::pow(128, 1) == 128 * vstd::arithmetic::power::pow(
                128,
                0,
            ));
        } else {
            assert(value / 128 < vstd::arithmetic::power::pow(128, (groups - 1) as nat));
            lemma_varint_is_short(value / 128, (groups - 1) as nat);
        }
    }
}

proof fn lemma_length_is_short(length: nat)
    requires
        length <= usize::MAX,
    ensures
        varint(length).len() <= most_groups(),
{
    reveal(vstd::arithmetic::power::pow);
    reveal_with_fuel(vstd::arithmetic::power::pow, 11);
    if usize::BITS == 64 {
        assert(vstd::arithmetic::power::pow(128, 10) > 0xffff_ffff_ffff_ffff);
        lemma_varint_is_short(length, 10);
    } else {
        assert(vstd::arithmetic::power::pow(128, 5) > 0xffff_ffff);
        lemma_varint_is_short(length, 5);
    }
}

/// A byte string reads back from the wire, whatever follows it.
pub proof fn lemma_bytes_unpack(bytes: Seq<u8>, tail: Seq<u8>)
    requires
        bytes.len() <= usize::MAX,
    ensures
        unpacked(packed(bytes) + tail) == Some(bytes),
{
    let head = varint(bytes.len());
    let wire = packed(bytes) + tail;
    assert(wire =~= head + (bytes + tail));
    lemma_varint(bytes.len(), bytes + tail);
    lemma_length_is_short(bytes.len());
    assert(wire.take(head.len() as int) =~= head);
    assert(wire[head.len() - 1] == head.last());
    assert(wire.subrange(head.len() as int, (head.len() + bytes.len()) as int) =~= bytes);
}

} // verus!
