//! What crossed the wire, read back as snapshots and inputs rather than bytes.

use vstd::prelude::*;

use crate::bridge::{byte_views, copy_bytes};
use crate::network::{PeerId, TickedNetwork};
use crate::packing::{lemma_bytes_unpack, packed, unpack, unpacked};

verus! {

/// What became of a packet.
#[derive(Clone, Copy, Debug, PartialEq, Eq, Structural)]
pub enum PacketFate {
    Delivered { at_frame: u64 },
    /// It arrived twice; these are the frames, first arrival first.
    Duplicated { first: u64, second: u64 },
    Lost,
}

/// One message of a packet: the wire index it travels under, where it is long enough to have one,
/// and what follows it.
#[derive(Clone, Debug, PartialEq, Eq)]
pub struct WireMessage {
    pub index: Option<u16>,
    pub body: Vec<u8>,
}

/// A packet that was handed to the network.
#[derive(Clone, Debug, PartialEq, Eq)]
pub struct SentPacket {
    pub from: PeerId,
    pub to: PeerId,
    /// The frame the sender handed it over.
    pub frame: u64,
    /// How long the whole packet is.
    pub bytes: usize,
    /// The messages it holds: several framed together, or one alone.
    pub messages: Vec<WireMessage>,
    pub fate: PacketFate,
}

/// One snapshot as it crossed the wire.
#[derive(Clone, Copy, Debug, PartialEq, Eq, Structural)]
pub struct SnapshotOnWire {
    /// The frame the sender handed it over.
    pub frame: u64,
    /// The whole packet, including any other messages framed with it.
    pub bytes: usize,
    pub delivered: bool,
}

/// One input packet as it crossed the wire.
#[derive(Clone, Copy, Debug, PartialEq, Eq, Structural)]
pub struct InputOnWire {
    pub frame: u64,
    pub bytes: usize,
    pub delivered: bool,
}

/// One message and when it travelled.
#[derive(Clone, Debug)]
pub struct TracedMessage<M> {
    /// The frame the sender handed it over.
    pub sent_frame: u64,
    /// The frame it arrived, or `None` if the link lost it.
    pub arrived_frame: Option<u64>,
    pub message: M,
}

/// Whether a packet holds a message with wire index `index`.
pub open spec fn holds_index(packet: SentPacket, index: u16) -> bool {
    exists|k: int|
        0 <= k < packet.messages@.len() && (#[trigger] packet.messages@[k]).index == Some(index)
}

/// Whether a packet went from `from` to `to` and holds a message with wire index `index`.
pub open spec fn travelled(packet: SentPacket, from: PeerId, to: PeerId, index: u16) -> bool {
    packet.from == from && packet.to == to && holds_index(packet, index)
}

/// Whether a packet arrived.
pub open spec fn is_delivered(packet: SentPacket) -> bool {
    packet.fate != PacketFate::Lost
}

/// The frame at which a packet first arrived.
pub open spec fn arrival(fate: PacketFate) -> Option<u64> {
    match fate {
        PacketFate::Delivered { at_frame } => Some(at_frame),
        PacketFate::Duplicated { first, .. } => Some(first),
        PacketFate::Lost => None,
    }
}

impl SentPacket {
    /// Whether the packet arrived.
    pub fn was_delivered(&self) -> (delivered: bool)
        ensures
            delivered == is_delivered(*self),
    {
        match self.fate {
            PacketFate::Lost => false,
            _ => true,
        }
    }

    /// Whether the packet, one message or a frame of several, holds a message with `index`.
    pub fn carries(&self, index: u16) -> (found: bool)
        ensures
            found == holds_index(*self, index),
    {
        let mut at: usize = 0;
        while at < self.messages.len()
            invariant
                at <= self.messages@.len(),
                forall|k: int|
                    0 <= k < at ==> (#[trigger] self.messages@[k]).index != Some(index),
            decreases self.messages@.len() - at,
        {
            if let Some(one) = self.messages[at].index {
                if one == index {
                    assert(self.messages@[at as int].index == Some(index));
                    return true;
                }
            }
            at = at + 1;
        }
        false
    }
}

/// The places of the packets from `from` to `to` that carry a message with wire index `index`,
/// among the first `count`. A packet that holds several counts once.
pub open spec fn carrying_places(
    trace: Seq<SentPacket>,
    from: PeerId,
    to: PeerId,
    index: u16,
    count: nat,
) -> Seq<int>
    decreases count,
{
    if count == 0 {
        Seq::empty()
    } else {
        let earlier = carrying_places(trace, from, to, index, (count - 1) as nat);
        if travelled(trace[count - 1], from, to, index) {
            earlier.push(count - 1)
        } else {
            earlier
        }
    }
}

/// The places of the traced packets from `from` to `to` that carry a message with wire index
/// `index`; none where the sender has no index for such messages.
pub open spec fn places_carrying(
    trace: Seq<SentPacket>,
    from: PeerId,
    to: PeerId,
    index: Option<u16>,
) -> Seq<int> {
    match index {
        Some(number) => carrying_places(trace, from, to, number, trace.len()),
        None => Seq::empty(),
    }
}

/// The traced packets from `from` to `to` that carry a message with wire index `index`, framed
/// with others or alone, by their places in the trace.
fn packets_carrying(trace: &Vec<SentPacket>, from: PeerId, to: PeerId, index: Option<u16>) -> (
    places: Vec<usize>)
    ensures
        places@.map_values(|at: usize| at as int) == places_carrying(trace@, from, to, index),
        forall|k: int| 0 <= k < places@.len() ==> #[trigger] places@[k] < trace@.len(),
{
    let mut places: Vec<usize> = Vec::new();
    let ghost number = |at: usize| at as int;
    assert(places@.map_values(number) =~= Seq::<int>::empty());
    let wanted: u16 = match index {
        Some(wanted) => wanted,
        None => {
            return places;
        },
    };
    let mut at: usize = 0;
    while at < trace.len()
        invariant
            at <= trace@.len(),
            number == (|at: usize| at as int),
            places@.map_values(number) == carrying_places(trace@, from, to, wanted, at as nat),
            forall|k: int| 0 <= k < places@.len() ==> #[trigger] places@[k] < trace@.len(),
        decreases trace@.len() - at,
    {
        let packet = &trace[at];
        let ghost had = places@.map_values(number);
        if packet.from.0 == from.0 && packet.to.0 == to.0 && packet.carries(wanted) {
            places.push(at);
            assert(places@.map_values(number) =~= had.push(at as int));
        }
        at = at + 1;
    }
    places
}

/// Whether a packet is a copy of another.
pub open spec fn is_copy(copy: SentPacket, packet: SentPacket) -> bool {
    &&& copy.from == packet.from
    &&& copy.to == packet.to
    &&& copy.frame == packet.frame
    &&& copy.bytes == packet.bytes
    &&& copy.fate == packet.fate
    &&& copy.messages@.len() == packet.messages@.len()
    &&& forall|k: int|
        0 <= k < copy.messages@.len() ==> (#[trigger] copy.messages@[k]).index
            == packet.messages@[k].index && copy.messages@[k].body@ == packet.messages@[k].body@
}

/// The snapshots traced from `from` to `to`, by frame and size.
pub open spec fn snapshots_on_wire(
    trace: Seq<SentPacket>,
    from: PeerId,
    to: PeerId,
    index: Option<u16>,
) -> Seq<SnapshotOnWire> {
    places_carrying(trace, from, to, index).map_values(
        |at: int| SnapshotOnWire {
            frame: trace[at].frame,
            bytes: trace[at].bytes,
            delivered: is_delivered(trace[at]),
        },
    )
}

/// The input packets traced from `from` to `to`, by frame and size.
pub open spec fn inputs_on_wire(
    trace: Seq<SentPacket>,
    from: PeerId,
    to: PeerId,
    index: Option<u16>,
) -> Seq<InputOnWire> {
    places_carrying(trace, from, to, index).map_values(
        |at: int| InputOnWire {
            frame: trace[at].frame,
            bytes: trace[at].bytes,
            delivered: is_delivered(trace[at]),
        },
    )
}

/// The snapshots among the packets that carry one, by frame and size. `index` is the wire index
/// that snapshots travel under, as the sender's registry has it.
fn snapshots_sent(trace: &Vec<SentPacket>, from: PeerId, to: PeerId, index: Option<u16>) -> (
    sent: Vec<SnapshotOnWire>)
    ensures
        sent@ == snapshots_on_wire(trace@, from, to, index),
{
    let places = packets_carrying(trace, from, to, index);
    let mut sent: Vec<SnapshotOnWire> = Vec::new();
    let ghost wanted = places_carrying(trace@, from, to, index);
    let mut k: usize = 0;
    while k < places.len()
        invariant
            k <= places@.len(),
            wanted == places@.map_values(|at: usize| at as int),
            forall|i: int| 0 <= i < places@.len() ==> #[trigger] places@[i] < trace@.len(),
            sent@.len() == k,
            forall|i: int|
                0 <= i < k ==> #[trigger] sent@[i] == (SnapshotOnWire {
                    frame: trace@[wanted[i]].frame,
                    bytes: trace@[wanted[i]].bytes,
                    delivered: is_delivered(trace@[wanted[i]]),
                }),
        decreases places@.len() - k,
    {
        assert(places@[k as int] < trace@.len());
        assert(wanted[k as int] == places@[k as int]);
        let packet = &trace[places[k]];
        sent.push(
            SnapshotOnWire {
                frame: packet.frame,
                bytes: packet.bytes,
                delivered: packet.was_delivered(),
            },
        );
        k = k + 1;
    }
    assert(sent@ =~= snapshots_on_wire(trace@, from, to, index));
    sent
}

/// The input packets, by frame and size. `index` is the wire index that inputs travel under, as
/// the sender's registry has it.
fn inputs_sent(trace: &Vec<SentPacket>, from: PeerId, to: PeerId, index: Option<u16>) -> (sent:
    Vec<InputOnWire>)
    ensures
        sent@ == inputs_on_wire(trace@, from, to, index),
{
    let list = snapshots_sent(trace, from, to, index);
    let ghost wanted = places_carrying(trace@, from, to, index);
    let mut sent: Vec<InputOnWire> = Vec::new();
    let mut k: usize = 0;
    while k < list.len()
        invariant
            k <= list@.len(),
            sent@.len() == k,
            forall|i: int|
                0 <= i < k ==> #[trigger] sent@[i] == (InputOnWire {
                    frame: list@[i].frame,
                    bytes: list@[i].bytes,
                    delivered: list@[i].delivered,
                }),
        decreases list@.len() - k,
    {
        sent.push(
            InputOnWire {
                frame: list[k].frame,
                bytes: list[k].bytes,
                delivered: list[k].delivered,
            },
        );
        k = k + 1;
    }
    assert(sent@ =~= inputs_on_wire(trace@, from, to, index));
    sent
}

/// The contents of a [`TracedMessage`] of bytes.
pub struct TracedModel {
    pub sent_frame: u64,
    pub arrived_frame: Option<u64>,
    pub message: Seq<u8>,
}

/// The contents of a list of traced messages.
pub open spec fn traced_views(list: Seq<TracedMessage<Vec<u8>>>) -> Seq<TracedModel> {
    list.map_values(
        |traced: TracedMessage<Vec<u8>>| TracedModel {
            sent_frame: traced.sent_frame,
            arrived_frame: traced.arrived_frame,
            message: traced.message@,
        },
    )
}

/// The messages with wire index `index` among the first `count` of a packet.
pub open spec fn messages_of(packet: SentPacket, index: u16, count: nat) -> Seq<TracedModel>
    decreases count,
{
    if count == 0 {
        Seq::empty()
    } else {
        let earlier = messages_of(packet, index, (count - 1) as nat);
        let message = packet.messages@[count - 1];
        if message.index == Some(index) {
            earlier.push(
                TracedModel {
                    sent_frame: packet.frame,
                    arrived_frame: arrival(packet.fate),
                    message: message.body@,
                },
            )
        } else {
            earlier
        }
    }
}

/// The messages with wire index `index` from `from` to `to` in the first `count` packets.
pub open spec fn messages_between(
    trace: Seq<SentPacket>,
    from: PeerId,
    to: PeerId,
    index: u16,
    count: nat,
) -> Seq<TracedModel>
    decreases count,
{
    if count == 0 {
        Seq::empty()
    } else {
        let earlier = messages_between(trace, from, to, index, (count - 1) as nat);
        let packet = trace[count - 1];
        if packet.from == from && packet.to == to {
            earlier + messages_of(packet, index, packet.messages@.len())
        } else {
            earlier
        }
    }
}

/// Every traced message with wire index `index` from `from` to `to`, in send order.
pub open spec fn traced_messages(
    trace: Seq<SentPacket>,
    from: PeerId,
    to: PeerId,
    index: Option<u16>,
) -> Seq<TracedModel> {
    match index {
        Some(number) => messages_between(trace, from, to, number, trace.len()),
        None => Seq::empty(),
    }
}

/// Every traced message with wire index `index` from `from` to `to`, delivered or not, in send
/// order, with the frame it was handed over on and the frame it arrived, if it did. The messages
/// come as their bytes behind the wire index.
fn decode_messages_traced(
    trace: &Vec<SentPacket>,
    from: PeerId,
    to: PeerId,
    index: Option<u16>,
) -> (found: Vec<TracedMessage<Vec<u8>>>)
    ensures
        traced_views(found@) == traced_messages(trace@, from, to, index),
{
    let mut found: Vec<TracedMessage<Vec<u8>>> = Vec::new();
    assert(traced_views(found@) =~= Seq::<TracedModel>::empty());
    let wanted: u16 = match index {
        Some(wanted) => wanted,
        None => {
            return found;
        },
    };
    let mut at: usize = 0;
    while at < trace.len()
        invariant
            at <= trace@.len(),
            traced_views(found@) == messages_between(trace@, from, to, wanted, at as nat),
        decreases trace@.len() - at,
    {
        let packet = &trace[at];
        if packet.from.0 == from.0 && packet.to.0 == to.0 {
            let arrived = match packet.fate {
                PacketFate::Delivered { at_frame } => Some(at_frame),
                PacketFate::Duplicated { first, second: _ } => Some(first),
                PacketFate::Lost => None,
            };
            let ghost had = traced_views(found@);
            let mut number: usize = 0;
            assert(had + Seq::<TracedModel>::empty() =~= had);
            while number < packet.messages.len()
                invariant
                    number <= packet.messages@.len(),
                    arrived == arrival(packet.fate),
                    traced_views(found@) == had + messages_of(*packet, wanted, number as nat),
                decreases packet.messages@.len() - number,
            {
                let ghost before_one = traced_views(found@);
                let message = &packet.messages[number];
                let matching = match message.index {
                    Some(one) => one == wanted,
                    None => false,
                };
                if matching {
                    let traced = TracedMessage {
                        sent_frame: packet.frame,
                        arrived_frame: arrived,
                        message: copy_bytes(&message.body),
                    };
                    found.push(traced);
                    assert(traced_views(found@) =~= before_one.push(
                        TracedModel {
                            sent_frame: packet.frame,
                            arrived_frame: arrived,
                            message: message.body@,
                        },
                    ));
                    assert(traced_views(found@) =~= had + messages_of(
                        *packet,
                        wanted,
                        (number + 1) as nat,
                    ));
                }
                number = number + 1;
            }
        }
        at = at + 1;
    }
    found
}

/// Every traced message with wire index `index` from `from` to `to`, in send order, delivered or
/// not, as its bytes behind the wire index.
fn decode_messages(
    trace: &Vec<SentPacket>,
    from: PeerId,
    to: PeerId,
    index: Option<u16>,
) -> (found: Vec<Vec<u8>>)
    ensures
        byte_views(found@) == traced_messages(trace@, from, to, index).map_values(
            |traced: TracedModel| traced.message,
        ),
{
    let list = decode_messages_traced(trace, from, to, index);
    let mut found: Vec<Vec<u8>> = Vec::new();
    let mut k: usize = 0;
    while k < list.len()
        invariant
            k <= list@.len(),
            found@.len() == k,
            forall|i: int| 0 <= i < k ==> (#[trigger] found@[i])@ == list@[i].message@,
        decreases list@.len() - k,
    {
        found.push(copy_bytes(&list[k].message));
        k = k + 1;
    }
    assert(byte_views(found@) =~= traced_messages(trace@, from, to, index).map_values(
        |traced: TracedModel| traced.message,
    )) by {
        assert forall|i: int| 0 <= i < list@.len() implies list@[i].message@ == traced_messages(
            trace@,
            from,
            to,
            index,
        )[i].message by {
            assert(traced_views(list@)[i].message == list@[i].message@);
        }
        assert(traced_views(list@).len() == list@.len());
    }
    found
}

/// The packets inside the first `count` of a list of snapshot messages, those that unpack.
pub open spec fn envelopes(messages: Seq<TracedModel>, count: nat) -> Seq<Seq<u8>>
    decreases count,
{
    if count == 0 {
        Seq::empty()
    } else {
        let earlier = envelopes(messages, (count - 1) as nat);
        match unpacked(messages[count - 1].message) {
            Some(bytes) => earlier.push(bytes),
            None => earlier,
        }
    }
}

/// The packets inside a list of snapshot messages, those that unpack.
pub open spec fn snapshots_in(messages: Seq<TracedModel>) -> Seq<Seq<u8>> {
    envelopes(messages, messages.len())
}

/// Every snapshot traced from `from` to `to`, delivered or not, in send order: the bytes that the
/// server built for that recipient. `index` is the wire index that snapshots travel under.
///
/// A traced message that does not unpack is skipped: a test corrupting packets on purpose wants to
/// see what survived.
fn decode_snapshots(
    trace: &Vec<SentPacket>,
    from: PeerId,
    to: PeerId,
    index: Option<u16>,
) -> (found: Vec<Vec<u8>>)
    ensures
        byte_views(found@) == snapshots_in(traced_messages(trace@, from, to, index)),
{
    let list = decode_messages(trace, from, to, index);
    let ghost messages = traced_messages(trace@, from, to, index);
    let mut found: Vec<Vec<u8>> = Vec::new();
    let mut k: usize = 0;
    assert(byte_views(found@) =~= Seq::<Seq<u8>>::empty());
    assert(byte_views(list@).len() == messages.len());
    while k < list.len()
        invariant
            k <= list@.len() == messages.len(),
            byte_views(list@) == messages.map_values(|traced: TracedModel| traced.message),
            byte_views(found@) == envelopes(messages, k as nat),
        decreases list@.len() - k,
    {
        let ghost had = byte_views(found@);
        assert(byte_views(list@)[k as int] == list@[k as int]@);
        assert(messages[k as int].message == list@[k as int]@);
        if let Some(bytes) = unpack(&list[k]) {
            found.push(bytes);
            assert(byte_views(found@) =~= had.push(bytes@));
        }
        k = k + 1;
    }
    found
}

/// A copy of a packet.
fn copy_packet(packet: &SentPacket) -> (copy: SentPacket)
    ensures
        is_copy(copy, *packet),
{
    let mut messages: Vec<WireMessage> = Vec::new();
    let mut k: usize = 0;
    while k < packet.messages.len()
        invariant
            k <= packet.messages@.len(),
            messages@.len() == k,
            forall|i: int|
                0 <= i < k ==> (#[trigger] messages@[i]).index == packet.messages@[i].index
                    && messages@[i].body@ == packet.messages@[i].body@,
        decreases packet.messages@.len() - k,
    {
        let message = &packet.messages[k];
        messages.push(WireMessage { index: message.index, body: copy_bytes(&message.body) });
        k = k + 1;
    }
    SentPacket {
        from: packet.from,
        to: packet.to,
        frame: packet.frame,
        bytes: packet.bytes,
        messages,
        fate: packet.fate,
    }
}

/// Whether `copies` are copies of the packets at `places`.
pub open spec fn are_copies(
    copies: Seq<SentPacket>,
    trace: Seq<SentPacket>,
    places: Seq<int>,
) -> bool {
    &&& copies.len() == places.len()
    &&& forall|k: int| 0 <= k < copies.len() ==> is_copy(#[trigger] copies[k], trace[places[k]])
}

/// Every traced packet from `from` to `to` that carried a snapshot. `index` is the wire index that
/// snapshots travel under, as the sender's registry has it.
fn snapshot_packets(trace: &Vec<SentPacket>, from: PeerId, to: PeerId, index: Option<u16>) -> (
    packets: Vec<SentPacket>)
    ensures
        are_copies(packets@, trace@, places_carrying(trace@, from, to, index)),
{
    let places = packets_carrying(trace, from, to, index);
    let ghost wanted = places_carrying(trace@, from, to, index);
    let mut packets: Vec<SentPacket> = Vec::new();
    let mut k: usize = 0;
    while k < places.len()
        invariant
            k <= places@.len(),
            wanted == places@.map_values(|at: usize| at as int),
            forall|i: int| 0 <= i < places@.len() ==> #[trigger] places@[i] < trace@.len(),
            packets@.len() == k,
            forall|i: int| 0 <= i < k ==> is_copy(#[trigger] packets@[i], trace@[wanted[i]]),
        decreases places@.len() - k,
    {
        assert(places@[k as int] < trace@.len());
        assert(wanted[k as int] == places@[k as int]);
        packets.push(copy_packet(&trace[places[k]]));
        k = k + 1;
    }
    packets
}

/// Every traced packet from `from` to `to` that carried an input. `index` is the wire index that
/// inputs travel under, as the sender's registry has it.
fn input_packets(trace: &Vec<SentPacket>, from: PeerId, to: PeerId, index: Option<u16>) -> (
    packets: Vec<SentPacket>)
    ensures
        are_copies(packets@, trace@, places_carrying(trace@, from, to, index)),
{
    snapshot_packets(trace, from, to, index)
}

proof fn lemma_carrying_places(
    trace: Seq<SentPacket>,
    from: PeerId,
    to: PeerId,
    index: u16,
    count: nat,
)
    requires
        count <= trace.len(),
    ensures
        ({
            let places = carrying_places(trace, from, to, index, count);
            &&& forall|k: int|
                0 <= k < places.len() ==> 0 <= #[trigger] places[k] < count && travelled(
                    trace[places[k]],
                    from,
                    to,
                    index,
                )
            &&& forall|j: int, k: int|
                0 <= j < k < places.len() ==> #[trigger] places[j] < #[trigger] places[k]
            &&& forall|at: int|
                0 <= at < count && #[trigger] travelled(trace[at], from, to, index)
                    ==> places.contains(at)
        }),
    decreases count,
{
    if count > 0 {
        let last = count - 1;
        let earlier = carrying_places(trace, from, to, index, last as nat);
        let places = carrying_places(trace, from, to, index, count);
        lemma_carrying_places(trace, from, to, index, last as nat);
        assert forall|at: int|
            0 <= at < count && #[trigger] travelled(
                trace[at],
                from,
                to,
                index,
            ) implies places.contains(at) by {
            if at < last {
                let k = choose|k: int| 0 <= k < earlier.len() && earlier[k] == at;
                assert(places[k] == at);
            } else {
                assert(places[earlier.len() as int] == at);
            }
        }
    }
}

/// The packets between two peers that carry a message are all those of the trace that do, each
/// once, in send order.
pub proof fn lemma_packets_are_all_and_once(
    trace: Seq<SentPacket>,
    from: PeerId,
    to: PeerId,
    index: u16,
)
    ensures
        ({
            let places = places_carrying(trace, from, to, Some(index));
            &&& forall|at: int|
                places.contains(at) <==> 0 <= at < trace.len() && #[trigger] travelled(
                    trace[at],
                    from,
                    to,
                    index,
                )
            &&& forall|j: int, k: int|
                0 <= j < k < places.len() ==> #[trigger] places[j] < #[trigger] places[k]
        }),
{
    lemma_carrying_places(trace, from, to, index, trace.len());
    let places = places_carrying(trace, from, to, Some(index));
    assert forall|at: int|
        places.contains(at) implies 0 <= at < trace.len() && #[trigger] travelled(
        trace[at],
        from,
        to,
        index,
    ) by {
        let k = choose|k: int| 0 <= k < places.len() && places[k] == at;
        assert(travelled(trace[places[k]], from, to, index));
    }
}

proof fn lemma_envelopes_read_back(
    messages: Seq<TracedModel>,
    snapshots: Seq<Seq<u8>>,
    count: nat,
)
    requires
        count <= messages.len(),
        messages.len() == snapshots.len(),
        forall|k: int|
            0 <= k < messages.len() ==> (#[trigger] messages[k]).message == packed(snapshots[k])
                && snapshots[k].len() <= usize::MAX,
    ensures
        envelopes(messages, count) == snapshots.take(count as int),
    decreases count,
{
    if count > 0 {
        let last = count - 1;
        lemma_envelopes_read_back(messages, snapshots, last as nat);
        let body = messages[last].message;
        assert(body == packed(snapshots[last]));
        lemma_bytes_unpack(snapshots[last], Seq::empty());
        assert(packed(snapshots[last]) + Seq::<u8>::empty() =~= body);
        assert(snapshots.take(count as int) =~= snapshots.take(last).push(snapshots[last]));
    } else {
        assert(envelopes(messages, count) =~= snapshots.take(0));
    }
}

/// Snapshots that were packed for the wire are read back from its trace as they were.
pub proof fn lemma_snapshots_read_back(messages: Seq<TracedModel>, snapshots: Seq<Seq<u8>>)
    requires
        messages.len() == snapshots.len(),
        forall|k: int|
            0 <= k < messages.len() ==> (#[trigger] messages[k]).message == packed(snapshots[k])
                && snapshots[k].len() <= usize::MAX,
    ensures
        snapshots_in(messages) == snapshots,
{
    lemma_envelopes_read_back(messages, snapshots, messages.len());
    assert(snapshots.take(snapshots.len() as int) =~= snapshots);
}

impl TickedNetwork {
    /// Every traced packet from `from` to `to` that carried a snapshot.
    pub fn snapshot_packets(&self, from: PeerId, to: PeerId, index: Option<u16>) -> (
        packets: Vec<SentPacket>)
        ensures
            are_copies(
                packets@,
                self@.trace,
                places_carrying(self@.trace, from, to, index),
            ),
    {
        snapshot_packets(self.trace(), from, to, index)
    }

    /// Every traced packet from `from` to `to` that carried an input.
    pub fn input_packets(&self, from: PeerId, to: PeerId, index: Option<u16>) -> (
        packets: Vec<SentPacket>)
        ensures
            are_copies(
                packets@,
                self@.trace,
                places_carrying(self@.trace, from, to, index),
            ),
    {
        input_packets(self.trace(), from, to, index)
    }

    /// The snapshots traced from `from` to `to`, by frame and size.
    pub fn snapshots_sent(&self, from: PeerId, to: PeerId, index: Option<u16>) -> (
        sent: Vec<SnapshotOnWire>)
        ensures
            sent@ == snapshots_on_wire(self@.trace, from, to, index),
    {
        snapshots_sent(self.trace(), from, to, index)
    }

    /// The input packets traced from `from` to `to`, by frame and size.
    pub fn inputs_sent(&self, from: PeerId, to: PeerId, index: Option<u16>) -> (
        sent: Vec<InputOnWire>)
        ensures
            sent@ == inputs_on_wire(self@.trace, from, to, index),
    {
        inputs_sent(self.trace(), from, to, index)
    }

    /// Every snapshot traced from `from` to `to`, delivered or not, in send order.
    pub fn decode_snapshots(&self, from: PeerId, to: PeerId, index: Option<u16>) -> (
        found: Vec<Vec<u8>>)
        ensures
            byte_views(found@) == snapshots_in(traced_messages(self@.trace, from, to, index)),
    {
        decode_snapshots(self.trace(), from, to, index)
    }

    /// Every traced message with wire index `index` from `from` to `to`, in send order.
    pub fn decode_messages(&self, from: PeerId, to: PeerId, index: Option<u16>) -> (
        found: Vec<Vec<u8>>)
        ensures
            byte_views(found@) == traced_messages(self@.trace, from, to, index).map_values(
                |traced: TracedModel| traced.message,
            ),
    {
        decode_messages(self.trace(), from, to, index)
    }

    /// As [`decode_messages`](Self::decode_messages), with when each message travelled.
    pub fn decode_messages_traced(&self, from: PeerId, to: PeerId, index: Option<u16>) -> (
        found: Vec<TracedMessage<Vec<u8>>>)
        ensures
            traced_views(found@) == traced_messages(self@.trace, from, to, index),
    {
        decode_messages_traced(self.trace(), from, to, index)
    }
}

// ---- laws ------------------------------------------------------------------------------------

proof fn lemma_carrying_places_of_both(
    one: Seq<SentPacket>,
    other: Seq<SentPacket>,
    from: PeerId,
    to: PeerId,
    index: u16,
    count: nat,
)
    requires
        count <= other.len(),
    ensures
        carrying_places(one + other, from, to, index, one.len() + count) == carrying_places(
            one,
            from,
            to,
            index,
            one.len(),
        ) + carrying_places(other, from, to, index, count).map_values(|at: int| at + one.len()),
    decreases count,
{
    let shift = |at: int| at + one.len();
    if count == 0 {
        lemma_carrying_places_of_the_first(one, other, from, to, index, one.len());
        assert(carrying_places(other, from, to, index, count).map_values(shift) =~= Seq::empty());
    } else {
        lemma_carrying_places_of_both(one, other, from, to, index, (count - 1) as nat);
        assert((one + other)[one.len() + count - 1] == other[count - 1]);
        let earlier = carrying_places(other, from, to, index, (count - 1) as nat);
        assert(earlier.push(count - 1).map_values(shift) =~= earlier.map_values(shift).push(
            one.len() + count - 1,
        ));
    }
    assert(carrying_places(one + other, from, to, index, one.len() + count) =~= carrying_places(
        one,
        from,
        to,
        index,
        one.len(),
    ) + carrying_places(other, from, to, index, count).map_values(shift));
}

proof fn lemma_carrying_places_of_the_first(
    one: Seq<SentPacket>,
    other: Seq<SentPacket>,
    from: PeerId,
    to: PeerId,
    index: u16,
    count: nat,
)
    requires
        count <= one.len(),
    ensures
        carrying_places(one + other, from, to, index, count) == carrying_places(
            one,
            from,
            to,
            index,
            count,
        ),
        forall|k: int|
            0 <= k < carrying_places(one, from, to, index, count).len() ==> 0
                <= #[trigger] carrying_places(one, from, to, index, count)[k] < count,
    decreases count,
{
    if count > 0 {
        lemma_carrying_places_of_the_first(one, other, from, to, index, (count - 1) as nat);
        assert((one + other)[count - 1] == one[count - 1]);
    }
}

/// Packets are looked at one by one: what is told of two stretches of a trace, one behind the other,
/// is what is told of the first and behind it what is told of the second.
pub proof fn lemma_traces_add_up(
    one: Seq<SentPacket>,
    other: Seq<SentPacket>,
    from: PeerId,
    to: PeerId,
    index: Option<u16>,
)
    ensures
        snapshots_on_wire(one + other, from, to, index) == snapshots_on_wire(one, from, to, index)
            + snapshots_on_wire(other, from, to, index),
        inputs_on_wire(one + other, from, to, index) == inputs_on_wire(one, from, to, index)
            + inputs_on_wire(other, from, to, index),
        traced_messages(one + other, from, to, index) == traced_messages(one, from, to, index)
            + traced_messages(other, from, to, index),
{
    if let Some(number) = index {
        lemma_carrying_places_of_both(one, other, from, to, number, other.len());
        lemma_carrying_places_of_the_first(one, other, from, to, number, one.len());
        lemma_carrying_places_of_the_first(other, one, from, to, number, other.len());
        let mine = places_carrying(one, from, to, index);
        let theirs = places_carrying(other, from, to, index);
        assert((one + other).len() == one.len() + other.len());
        assert(places_carrying(one + other, from, to, index) == mine + theirs.map_values(
            |at: int| at + one.len(),
        ));
        assert forall|k: int| 0 <= k < mine.len() implies (one + other)[#[trigger] mine[k]]
            == one[mine[k]] by {}
        assert forall|k: int| 0 <= k < theirs.len() implies (one + other)[#[trigger] theirs[k]
            + one.len()] == other[theirs[k]] by {}
        assert(snapshots_on_wire(one + other, from, to, index) =~= snapshots_on_wire(
            one,
            from,
            to,
            index,
        ) + snapshots_on_wire(other, from, to, index));
        assert(inputs_on_wire(one + other, from, to, index) =~= inputs_on_wire(
            one,
            from,
            to,
            index,
        ) + inputs_on_wire(other, from, to, index));
        lemma_messages_of_both(one, other, from, to, number, other.len());
    } else {
        assert(snapshots_on_wire(one + other, from, to, index) =~= Seq::empty());
        assert(inputs_on_wire(one + other, from, to, index) =~= Seq::empty());
        assert(snapshots_on_wire(one, from, to, index) + snapshots_on_wire(other, from, to, index)
            =~= Seq::empty());
        assert(inputs_on_wire(one, from, to, index) + inputs_on_wire(other, from, to, index)
            =~= Seq::empty());
        assert(traced_messages(one, from, to, index) + traced_messages(other, from, to, index)
            =~= Seq::empty());
    }
}

proof fn lemma_messages_of_both(
    one: Seq<SentPacket>,
    other: Seq<SentPacket>,
    from: PeerId,
    to: PeerId,
    index: u16,
    count: nat,
)
    requires
        count <= other.len(),
    ensures
        messages_between(one + other, from, to, index, one.len() + count) == messages_between(
            one,
            from,
            to,
            index,
            one.len(),
        ) + messages_between(other, from, to, index, count),
    decreases count,
{
    if count == 0 {
        lemma_messages_of_the_first(one, other, from, to, index, one.len());
    } else {
        lemma_messages_of_both(one, other, from, to, index, (count - 1) as nat);
        assert((one + other)[one.len() + count - 1] == other[count - 1]);
    }
    assert(messages_between(one + other, from, to, index, one.len() + count) =~= messages_between(
        one,
        from,
        to,
        index,
        one.len(),
    ) + messages_between(other, from, to, index, count));
}

proof fn lemma_messages_of_the_first(
    one: Seq<SentPacket>,
    other: Seq<SentPacket>,
    from: PeerId,
    to: PeerId,
    index: u16,
    count: nat,
)
    requires
        count <= one.len(),
    ensures
        messages_between(one + other, from, to, index, count) == messages_between(
            one,
            from,
            to,
            index,
            count,
        ),
    decreases count,
{
    if count > 0 {
        lemma_messages_of_the_first(one, other, from, to, index, (count - 1) as nat);
        assert((one + other)[count - 1] == one[count - 1]);
    }
}

/// The messages of a packet that travel under `index`, in order.
pub open spec fn bodies_under(packet: SentPacket, index: u16) -> Seq<Seq<u8>> {
    packet.messages@.filter(|message: WireMessage| message.index == Some(index)).map_values(
        |message: WireMessage| message.body@,
    )
}

proof fn lemma_messages_of_one_packet(packet: SentPacket, index: u16, count: nat)
    requires
        count <= packet.messages@.len(),
    ensures
        ({
            let told = messages_of(packet, index, count);
            let kept = packet.messages@.take(count as int).filter(
                |message: WireMessage| message.index == Some(index),
            );
            &&& told.len() == kept.len()
            &&& forall|k: int|
                0 <= k < told.len() ==> (#[trigger] told[k]).message == kept[k].body@
                    && told[k].sent_frame == packet.frame && told[k].arrived_frame == arrival(
                    packet.fate,
                )
        }),
    decreases count,
{
    reveal(Seq::filter);
    if count > 0 {
        let upto = packet.messages@.take(count as int);
        lemma_messages_of_one_packet(packet, index, (count - 1) as nat);
        assert(upto.drop_last() =~= packet.messages@.take(count - 1));
        assert(upto.last() == packet.messages@[count - 1]);
    }
}

/// What is told of one packet: nothing, unless it went from the one peer to the other. Then every
/// message that travels under the index, in order, with the frames in which it left and first
/// arrived; and the packet once, with its length and whether it arrived, where it holds such a
/// message at all.
pub proof fn lemma_one_packet_is_told_of(
    packet: SentPacket,
    from: PeerId,
    to: PeerId,
    index: u16,
)
    ensures
        ({
            let told = traced_messages(seq![packet], from, to, Some(index));
            let sent = snapshots_on_wire(seq![packet], from, to, Some(index));
            let inputs = inputs_on_wire(seq![packet], from, to, Some(index));
            let bodies = bodies_under(packet, index);
            if packet.from == from && packet.to == to {
                &&& told.map_values(|one: TracedModel| one.message) == bodies
                &&& forall|k: int|
                    0 <= k < told.len() ==> (#[trigger] told[k]).sent_frame == packet.frame
                        && told[k].arrived_frame == (match packet.fate {
                        PacketFate::Lost => None,
                        PacketFate::Delivered { at_frame } => Some(at_frame),
                        PacketFate::Duplicated { first, second } => Some(first),
                    })
                &&& bodies.len() == 0 ==> sent.len() == 0 && inputs.len() == 0
                &&& bodies.len() > 0 ==> sent == seq![
                    SnapshotOnWire {
                        frame: packet.frame,
                        bytes: packet.bytes,
                        delivered: !(packet.fate is Lost),
                    },
                ] && inputs == seq![
                    InputOnWire {
                        frame: packet.frame,
                        bytes: packet.bytes,
                        delivered: !(packet.fate is Lost),
                    },
                ]
            } else {
                told.len() == 0 && sent.len() == 0 && inputs.len() == 0
            }
        }),
{
    let trace = seq![packet];
    let all = packet.messages@;
    let under = |message: WireMessage| message.index == Some(index);
    let told = traced_messages(trace, from, to, Some(index));
    assert(messages_between(trace, from, to, index, 0) =~= Seq::empty());
    assert(trace[0] == packet);
    lemma_messages_of_one_packet(packet, index, all.len());
    assert(all.take(all.len() as int) =~= all);
    assert(carrying_places(trace, from, to, index, 0) =~= Seq::empty());
    let places = carrying_places(trace, from, to, index, 1);
    assert(places =~= (if travelled(packet, from, to, index) {
        seq![0int]
    } else {
        Seq::empty()
    }));
    let sent = snapshots_on_wire(trace, from, to, Some(index));
    let inputs = inputs_on_wire(trace, from, to, Some(index));
    if packet.from == from && packet.to == to {
        assert(told =~= messages_of(packet, index, all.len()));
        assert(told.map_values(|one: TracedModel| one.message) =~= bodies_under(packet, index));
        if all.filter(under).len() > 0 {
            all.lemma_filter_pred(under, 0);
            all.lemma_filter_contains_rev(under, all.filter(under)[0]);
            let k = choose|k: int| 0 <= k < all.len() && all[k] == all.filter(under)[0];
            assert(all[k].index == Some(index));
            assert(holds_index(packet, index));
            assert(sent =~= seq![
                SnapshotOnWire {
                    frame: packet.frame,
                    bytes: packet.bytes,
                    delivered: !(packet.fate is Lost),
                },
            ]);
            assert(inputs =~= seq![
                InputOnWire {
                    frame: packet.frame,
                    bytes: packet.bytes,
                    delivered: !(packet.fate is Lost),
                },
            ]);
        } else if holds_index(packet, index) {
            let k = choose|k: int| 0 <= k < all.len() && (#[trigger] all[k]).index == Some(index);
            all.lemma_filter_contains(under, k);
            assert(all.filter(under).contains(all[k]));
        }
    }
}

/// A packet counts as delivered exactly when there is a frame in which it arrived.
pub proof fn lemma_delivered_means_arrived(packet: SentPacket)
    ensures
        is_delivered(packet) <==> arrival(packet.fate) is Some,
        packet.fate is Lost <==> arrival(packet.fate) is None,
{
}

/// Snapshots are read one by one: a message that cannot be unpacked leaves the others as they are.
pub proof fn lemma_snapshots_are_read_alone(one: Seq<TracedModel>, other: Seq<TracedModel>)
    ensures
        snapshots_in(one + other) == snapshots_in(one) + snapshots_in(other),
        one.len() == 1 ==> snapshots_in(one) == (match unpacked(one[0].message) {
            Some(bytes) => seq![bytes],
            None => Seq::empty(),
        }),
{
    lemma_envelopes_of_both(one, other, other.len());
    if one.len() == 1 {
        assert(envelopes(one, 0) =~= Seq::empty());
        assert(snapshots_in(one) =~= (match unpacked(one[0].message) {
            Some(bytes) => seq![bytes],
            None => Seq::empty(),
        }));
    }
}

proof fn lemma_envelopes_of_both(one: Seq<TracedModel>, other: Seq<TracedModel>, count: nat)
    requires
        count <= other.len(),
    ensures
        envelopes(one + other, one.len() + count) == envelopes(one, one.len()) + envelopes(
            other,
            count,
        ),
    decreases count,
{
    if count == 0 {
        lemma_envelopes_of_the_first(one, other, one.len());
    } else {
        lemma_envelopes_of_both(one, other, (count - 1) as nat);
        assert((one + other)[one.len() + count - 1] == other[count - 1]);
    }
    assert(envelopes(one + other, one.len() + count) =~= envelopes(one, one.len()) + envelopes(
        other,
        count,
    ));
}

proof fn lemma_envelopes_of_the_first(one: Seq<TracedModel>, other: Seq<TracedModel>, count: nat)
    requires
        count <= one.len(),
    ensures
        envelopes(one + other, count) == envelopes(one, count),
    decreases count,
{
    if count > 0 {
        lemma_envelopes_of_the_first(one, other, (count - 1) as nat);
        assert((one + other)[count - 1] == one[count - 1]);
    }
}

/// A copy of a packet is told of as the packet is.
pub proof fn lemma_copy_tells_the_same(
    copy: SentPacket,
    packet: SentPacket,
    from: PeerId,
    to: PeerId,
    index: u16,
)
    requires
        is_copy(copy, packet),
    ensures
        is_delivered(copy) == is_delivered(packet),
        arrival(copy.fate) == arrival(packet.fate),
        holds_index(copy, index) == holds_index(packet, index),
        traced_messages(seq![copy], from, to, Some(index)) == traced_messages(
            seq![packet],
            from,
            to,
            Some(index),
        ),
        snapshots_on_wire(seq![copy], from, to, Some(index)) == snapshots_on_wire(
            seq![packet],
            from,
            to,
            Some(index),
        ),
        inputs_on_wire(seq![copy], from, to, Some(index)) == inputs_on_wire(
            seq![packet],
            from,
            to,
            Some(index),
        ),
{
    let a = copy.messages@;
    let b = packet.messages@;
    if holds_index(copy, index) {
        let k = choose|k: int| 0 <= k < a.len() && (#[trigger] a[k]).index == Some(index);
        assert(b[k].index == Some(index));
    }
    if holds_index(packet, index) {
        let k = choose|k: int| 0 <= k < b.len() && (#[trigger] b[k]).index == Some(index);
        assert(a[k].index == b[k].index);
    }
    lemma_copied_messages(copy, packet, index, a.len());
    let one = seq![copy];
    let other = seq![packet];
    assert(one[0] == copy && other[0] == packet);
    assert(messages_between(one, from, to, index, 0) =~= messages_between(
        other,
        from,
        to,
        index,
        0,
    ));
    assert(traced_messages(one, from, to, Some(index)) == messages_between(
        one,
        from,
        to,
        index,
        1,
    ));
    assert(traced_messages(other, from, to, Some(index)) == messages_between(
        other,
        from,
        to,
        index,
        1,
    ));
    assert(carrying_places(one, from, to, index, 0) =~= carrying_places(other, from, to, index, 0));
    assert(carrying_places(one, from, to, index, 1) == carrying_places(other, from, to, index, 1));
    lemma_carrying_places_of_the_first(one, other, from, to, index, 1);
    assert(snapshots_on_wire(one, from, to, Some(index)) =~= snapshots_on_wire(
        other,
        from,
        to,
        Some(index),
    ));
    assert(inputs_on_wire(one, from, to, Some(index)) =~= inputs_on_wire(
        other,
        from,
        to,
        Some(index),
    ));
}

proof fn lemma_copied_messages(copy: SentPacket, packet: SentPacket, index: u16, count: nat)
    requires
        is_copy(copy, packet),
        count <= copy.messages@.len(),
    ensures
        messages_of(copy, index, count) == messages_of(packet, index, count),
    decreases count,
{
    if count > 0 {
        lemma_copied_messages(copy, packet, index, (count - 1) as nat);
        assert(copy.messages@[count - 1].index == packet.messages@[count - 1].index);
    }
}

/// Messages are seen as they are, one for one.
pub proof fn lemma_messages_are_seen_one_for_one(list: Seq<TracedMessage<Vec<u8>>>)
    ensures
        traced_views(list).len() == list.len(),
        forall|k: int|
            0 <= k < list.len() ==> (#[trigger] traced_views(list)[k]).sent_frame
                == list[k].sent_frame && traced_views(list)[k].arrived_frame
                == list[k].arrived_frame && traced_views(list)[k].message == list[k].message@,
{
}

} // verus!
