//! The bridge between a ticked world and its lobby: snapshots and inputs, coming and going.

use vstd::prelude::*;

use crate::handshake::{HandshakeInstalled, RegistryVerified};
use crate::packing::{pack, packed};

verus! {

/// A snapshot as a lobby message: the bytes of one packet.
#[derive(Clone, Debug)]
pub struct EnsembleSnapshotMessage {
    pub bytes: Vec<u8>,
}

/// The inputs of one player, each for its tick.
#[derive(Clone, Debug)]
pub struct NetworkInputPayload<T> {
    pub inputs: Vec<(u64, T)>,
}

/// A player's inputs as a lobby message.
#[derive(Clone, Debug)]
pub struct EnsembleInputMessage<T> {
    pub payload: NetworkInputPayload<T>,
}

/// One input that a player sent for one tick.
#[derive(Clone, Debug)]
pub struct ReceivedNetworkInput<T> {
    pub sender: u128,
    pub tick: u64,
    pub input: T,
}

// ---- coming in -------------------------------------------------------------------------------

/// Whether snapshots may pass: until the registries have been compared nothing that arrives is
/// applied, unless there is no handshake to wait for.
pub open spec fn snapshots_pass(
    installed: Option<HandshakeInstalled>,
    verified: Option<RegistryVerified>,
) -> bool {
    installed is None || verified is Some
}

/// What became of the snapshots that arrived.
pub struct Forwarded {
    /// The packets to hand on, in their order of arrival.
    pub packets: Vec<Vec<u8>>,
    /// How many were dropped because the registries have not been compared.
    pub dropped_before_handshake: usize,
}

/// The packets of snapshot messages.
pub open spec fn packets_of(messages: Seq<EnsembleSnapshotMessage>) -> Seq<Seq<u8>> {
    messages.map_values(|message: EnsembleSnapshotMessage| message.bytes@)
}

/// The contents of a list of byte strings.
pub open spec fn byte_views(list: Seq<Vec<u8>>) -> Seq<Seq<u8>> {
    list.map_values(|bytes: Vec<u8>| bytes@)
}

/// Hand received snapshots on, or drop them all at the door while the registries have not been
/// compared.
pub fn forward_received_snapshots(
    installed: Option<HandshakeInstalled>,
    verified: Option<RegistryVerified>,
    messages: &Vec<EnsembleSnapshotMessage>,
) -> (forwarded: Forwarded)
    ensures
        byte_views(forwarded.packets@) == (if snapshots_pass(installed, verified) {
            packets_of(messages@)
        } else {
            Seq::empty()
        }),
        forwarded.dropped_before_handshake == (if snapshots_pass(installed, verified) {
            0
        } else {
            messages@.len()
        }),
{
    let mut packets: Vec<Vec<u8>> = Vec::new();
    if installed.is_some() && verified.is_none() {
        assert(byte_views(packets@) =~= Seq::<Seq<u8>>::empty());
        return Forwarded { packets, dropped_before_handshake: messages.len() };
    }
    let mut index: usize = 0;
    while index < messages.len()
        invariant
            index <= messages@.len(),
            packets@.len() == index,
            forall|k: int| 0 <= k < index ==> (#[trigger] packets@[k])@ == messages@[k].bytes@,
        decreases messages@.len() - index,
    {
        packets.push(copy_bytes(&messages[index].bytes));
        index = index + 1;
    }
    assert(byte_views(packets@) =~= packets_of(messages@));
    Forwarded { packets, dropped_before_handshake: 0 }
}

/// A copy of a byte string.
pub fn copy_bytes(bytes: &Vec<u8>) -> (copy: Vec<u8>)
    ensures
        copy@ == bytes@,
{
    let mut copy: Vec<u8> = Vec::new();
    let mut index: usize = 0;
    while index < bytes.len()
        invariant
            index <= bytes@.len(),
            copy@ == bytes@.take(index as int),
        decreases bytes@.len() - index,
    {
        copy.push(bytes[index]);
        index = index + 1;
        assert(copy@ =~= bytes@.take(index as int));
    }
    assert(copy@ =~= bytes@);
    copy
}

/// `sorted` with `entry` behind all entries of its tick or earlier ones.
pub open spec fn with_entry<T>(sorted: Seq<(u64, T)>, entry: (u64, T)) -> Seq<(u64, T)>
    decreases sorted.len(),
{
    if sorted.len() == 0 || sorted.last().0 <= entry.0 {
        sorted.push(entry)
    } else {
        with_entry(sorted.drop_last(), entry).push(sorted.last())
    }
}

/// Entries by tick, those of one tick in the order they came in.
pub open spec fn by_tick<T>(entries: Seq<(u64, T)>) -> Seq<(u64, T)>
    decreases entries.len(),
{
    if entries.len() == 0 {
        entries
    } else {
        with_entry(by_tick(entries.drop_last()), entries.last())
    }
}

/// Entries as inputs that `sender` sent.
pub open spec fn sent_by<T>(sender: u128, entries: Seq<(u64, T)>) -> Seq<ReceivedNetworkInput<T>> {
    entries.map_values(
        |entry: (u64, T)| ReceivedNetworkInput { sender, tick: entry.0, input: entry.1 },
    )
}

/// The inputs of messages in their order of arrival: those of one message by tick, so that the
/// newest comes last; none of a message that has no sender.
pub open spec fn inputs_of<T>(
    messages: Seq<(Option<u128>, EnsembleInputMessage<T>)>,
) -> Seq<ReceivedNetworkInput<T>>
    decreases messages.len(),
{
    if messages.len() == 0 {
        Seq::empty()
    } else {
        let first = match messages[0].0 {
            Some(sender) => sent_by(sender, by_tick(messages[0].1.payload.inputs@)),
            None => Seq::empty(),
        };
        first + inputs_of(messages.skip(1))
    }
}

/// How many messages have no sender.
pub open spec fn senderless<T>(messages: Seq<(Option<u128>, EnsembleInputMessage<T>)>) -> nat
    decreases messages.len(),
{
    if messages.len() == 0 {
        0
    } else {
        senderless(messages.skip(1)) + (if messages[0].0 is None {
            1nat
        } else {
            0nat
        })
    }
}

/// The entries of a message, by tick.
fn sort_by_tick<T>(entries: Vec<(u64, T)>) -> (sorted: Vec<(u64, T)>)
    ensures
        sorted@ == by_tick(entries@),
{
    let ghost all = entries@;
    let mut rest = entries;
    let mut sorted: Vec<(u64, T)> = Vec::new();
    let ghost mut taken: int = 0;
    assert(all.take(0) =~= Seq::<(u64, T)>::empty());
    assert(all.skip(0) =~= all);
    while rest.len() > 0
        invariant
            0 <= taken <= all.len(),
            rest@ == all.skip(taken),
            sorted@ == by_tick(all.take(taken)),
        decreases rest@.len(),
    {
        let ghost upto = all.take(taken + 1);
        assert(upto.drop_last() =~= all.take(taken));
        assert(upto.last() == rest@[0]);
        let entry = rest.remove(0);
        insert_by_tick(&mut sorted, entry);
        proof {
            taken = taken + 1;
        }
        assert(rest@ =~= all.skip(taken));
    }
    assert(all.take(taken) =~= all);
    sorted
}

/// Puts `entry` behind all entries of its tick or earlier ones.
fn insert_by_tick<T>(sorted: &mut Vec<(u64, T)>, entry: (u64, T))
    ensures
        final(sorted)@ == with_entry(old(sorted)@, entry),
{
    let ghost list = sorted@;
    let mut end: usize = sorted.len();
    assert(list.take(end as int) =~= list);
    assert(with_entry(list, entry) + list.skip(end as int) =~= with_entry(list, entry));
    while end > 0 && sorted[end - 1].0 > entry.0
        invariant
            end <= sorted@.len(),
            list == sorted@,
            with_entry(list, entry) == with_entry(list.take(end as int), entry) + list.skip(
                end as int,
            ),
        decreases end,
    {
        let ghost upto = list.take(end as int);
        assert(upto.drop_last() =~= list.take(end - 1));
        assert(upto.last() == list[end - 1]);
        assert(with_entry(list.take(end - 1), entry).push(list[end - 1]) + list.skip(end as int)
            =~= with_entry(list.take(end - 1), entry) + list.skip(end - 1));
        end = end - 1;
    }
    let ghost upto = list.take(end as int);
    assert(end > 0 ==> upto.last() == list[end - 1]);
    sorted.insert(end, entry);
    assert(sorted@ =~= upto.push(entry) + list.skip(end as int));
}

/// What became of the input messages that arrived.
pub struct ForwardedInputs<T> {
    pub inputs: Vec<ReceivedNetworkInput<T>>,
    /// How many messages were skipped because they have no sender.
    pub skipped: usize,
}

/// Hand received inputs on, those of a message in ascending tick order so that the newest is the
/// last to count. A message without a sender is skipped.
pub fn forward_received_inputs<T>(
    messages: Vec<(Option<u128>, EnsembleInputMessage<T>)>,
) -> (forwarded: ForwardedInputs<T>)
    ensures
        forwarded.inputs@ == inputs_of(messages@),
        forwarded.skipped == senderless(messages@),
{
    let ghost all = messages@;
    let total: usize = messages.len();
    let mut rest = messages;
    let mut inputs: Vec<ReceivedNetworkInput<T>> = Vec::new();
    let mut skipped: usize = 0;
    while rest.len() > 0
        invariant
            rest@.len() <= total,
            skipped <= total - rest@.len(),
            inputs_of(all) == inputs@ + inputs_of(rest@),
            senderless(all) == skipped + senderless(rest@),
        decreases rest@.len(),
    {
        let ghost had = inputs@;
        let ghost before_one = rest@;
        let message = rest.remove(0);
        assert(rest@ =~= before_one.skip(1));
        match message.0 {
            None => {
                skipped = skipped + 1;
                assert(had + (Seq::<ReceivedNetworkInput<T>>::empty() + inputs_of(rest@)) =~= had
                    + inputs_of(rest@));
            },
            Some(sender) => {
                let ghost wanted = by_tick(message.1.payload.inputs@);
                let mut entries = sort_by_tick(message.1.payload.inputs);
                assert(wanted.take(0) =~= Seq::<(u64, T)>::empty());
                let ghost mut moved: int = 0;
                assert(sent_by(sender, wanted.take(0)) =~= Seq::empty());
                assert(wanted.skip(0) =~= wanted);
                while entries.len() > 0
                    invariant
                        0 <= moved <= wanted.len(),
                        entries@ == wanted.skip(moved),
                        inputs@ == had + sent_by(sender, wanted.take(moved)),
                    decreases entries@.len(),
                {
                    let ghost sent = inputs@;
                    let entry = entries.remove(0);
                    assert(entry == wanted[moved]);
                    inputs.push(
                        ReceivedNetworkInput { sender, tick: entry.0, input: entry.1 },
                    );
                    proof {
                        moved = moved + 1;
                    }
                    assert(entries@ =~= wanted.skip(moved));
                    assert(sent_by(sender, wanted.take(moved)) =~= sent_by(
                        sender,
                        wanted.take(moved - 1),
                    ).push(inputs@.last()));
                    assert(inputs@ =~= had + sent_by(sender, wanted.take(moved)));
                }
                assert(wanted.take(moved) =~= wanted);
                assert(had + (sent_by(sender, wanted) + inputs_of(rest@)) =~= (had + sent_by(
                    sender,
                    wanted,
                )) + inputs_of(rest@));
            },
        }
    }
    assert(inputs@ + Seq::<ReceivedNetworkInput<T>>::empty() =~= inputs@);
    ForwardedInputs { inputs, skipped }
}

/// Whether entries come in ascending tick order.
pub open spec fn is_ascending<T>(entries: Seq<(u64, T)>) -> bool {
    forall|j: int, k: int|
        0 <= j < k < entries.len() ==> (#[trigger] entries[j]).0 <= (#[trigger] entries[k]).0
}

proof fn lemma_with_entry<T>(sorted: Seq<(u64, T)>, entry: (u64, T))
    requires
        is_ascending(sorted),
    ensures
        is_ascending(with_entry(sorted, entry)),
        with_entry(sorted, entry).to_multiset() == sorted.to_multiset().insert(entry),
        forall|k: int|
            0 <= k < with_entry(sorted, entry).len() ==> #[trigger] with_entry(sorted, entry)[k]
                == entry || sorted.contains(with_entry(sorted, entry)[k]),
    decreases sorted.len(),
{
    broadcast use vstd::seq_lib::group_to_multiset_ensures;

    let result = with_entry(sorted, entry);
    if sorted.len() == 0 || sorted.last().0 <= entry.0 {
        assert forall|k: int| 0 <= k < result.len() implies #[trigger] result[k] == entry
            || sorted.contains(result[k]) by {
            if k < sorted.len() {
                assert(sorted[k] == result[k]);
            }
        }
    } else {
        let front = sorted.drop_last();
        lemma_with_entry(front, entry);
        let rest = with_entry(front, entry);
        assert(front.push(sorted.last()) =~= sorted);
        assert(sorted.to_multiset() == front.to_multiset().insert(sorted.last()));
        assert forall|k: int| 0 <= k < result.len() implies #[trigger] result[k] == entry
            || sorted.contains(result[k]) by {
            if k < rest.len() {
                assert(result[k] == rest[k]);
                if rest[k] != entry {
                    let i = choose|i: int| 0 <= i < front.len() && front[i] == rest[k];
                    assert(sorted[i] == rest[k]);
                }
            } else {
                assert(sorted[sorted.len() - 1] == result[k]);
            }
        }
        assert forall|j: int, k: int| 0 <= j < k < result.len() implies (#[trigger] result[j]).0
            <= (#[trigger] result[k]).0 by {
            assert(result[j] == rest[j]);
            if k < rest.len() {
                assert(result[k] == rest[k]);
            } else if rest[j] != entry {
                let i = choose|i: int| 0 <= i < front.len() && front[i] == rest[j];
                assert(sorted[i] == rest[j]);
            }
        }
        assert(result.to_multiset() =~= sorted.to_multiset().insert(entry));
    }
}

/// The inputs of a message are handed on in ascending tick order, all of them and nothing else,
/// so the newest is the last.
pub proof fn lemma_inputs_come_in_tick_order<T>(entries: Seq<(u64, T)>)
    ensures
        is_ascending(by_tick(entries)),
        by_tick(entries).to_multiset() == entries.to_multiset(),
        by_tick(entries).len() == entries.len(),
    decreases entries.len(),
{
    broadcast use vstd::seq_lib::group_to_multiset_ensures;

    if entries.len() > 0 {
        lemma_inputs_come_in_tick_order(entries.drop_last());
        lemma_with_entry(by_tick(entries.drop_last()), entries.last());
        assert(entries.drop_last().push(entries.last()) =~= entries);
        assert(by_tick(entries).to_multiset().len() == entries.to_multiset().len());
    }
}

/// The entries for one tick, in order.
pub open spec fn entries_at<T>(entries: Seq<(u64, T)>, tick: u64) -> Seq<(u64, T)>
    decreases entries.len(),
{
    if entries.len() == 0 {
        Seq::empty()
    } else if entries.last().0 == tick {
        entries_at(entries.drop_last(), tick).push(entries.last())
    } else {
        entries_at(entries.drop_last(), tick)
    }
}

proof fn lemma_with_entry_at<T>(sorted: Seq<(u64, T)>, entry: (u64, T), tick: u64)
    ensures
        entries_at(with_entry(sorted, entry), tick) == (if entry.0 == tick {
            entries_at(sorted, tick).push(entry)
        } else {
            entries_at(sorted, tick)
        }),
    decreases sorted.len(),
{
    let result = with_entry(sorted, entry);
    if sorted.len() == 0 || sorted.last().0 <= entry.0 {
        assert(result.drop_last() =~= sorted);
    } else {
        lemma_with_entry_at(sorted.drop_last(), entry, tick);
        assert(result.drop_last() =~= with_entry(sorted.drop_last(), entry));
    }
}

/// The inputs of a message that are for the same tick keep the order they came in.
pub proof fn lemma_inputs_of_a_tick_keep_their_order<T>(entries: Seq<(u64, T)>, tick: u64)
    ensures
        entries_at(by_tick(entries), tick) == entries_at(entries, tick),
    decreases entries.len(),
{
    if entries.len() > 0 {
        lemma_inputs_of_a_tick_keep_their_order(entries.drop_last(), tick);
        lemma_with_entry_at(by_tick(entries.drop_last()), entries.last(), tick);
    }
}

/// Messages are read one by one: what is handed on of two lists of them, one behind the other, is
/// what is handed on of the first and behind it what is handed on of the second, and no message is
/// skipped on account of another.
pub proof fn lemma_messages_are_read_alone<T>(
    one: Seq<(Option<u128>, EnsembleInputMessage<T>)>,
    other: Seq<(Option<u128>, EnsembleInputMessage<T>)>,
)
    ensures
        inputs_of(one + other) == inputs_of(one) + inputs_of(other),
        senderless(one + other) == senderless(one) + senderless(other),
    decreases one.len(),
{
    if one.len() == 0 {
        assert(one + other =~= other);
        assert(inputs_of(one) + inputs_of(other) =~= inputs_of(other));
    } else {
        lemma_messages_are_read_alone(one.skip(1), other);
        assert((one + other).skip(1) =~= one.skip(1) + other);
        assert((one + other)[0] == one[0]);
        assert(inputs_of(one + other) =~= inputs_of(one) + inputs_of(other));
    }
}

/// Inputs as the entries they were sent as.
pub open spec fn as_entries<T>(inputs: Seq<ReceivedNetworkInput<T>>) -> Seq<(u64, T)> {
    inputs.map_values(|input: ReceivedNetworkInput<T>| (input.tick, input.input))
}

/// Every entry of a message that has a sender is handed on once, under that sender, in a stretch
/// of its own behind what came before the message: by tick, those of one tick in the order they
/// came in. Nothing is handed on of a message that has none, and it alone is counted as skipped.
pub proof fn lemma_every_entry_is_handed_on<T>(
    messages: Seq<(Option<u128>, EnsembleInputMessage<T>)>,
    at: int,
)
    requires
        0 <= at < messages.len(),
    ensures
        ({
            let inputs = inputs_of(messages);
            let entries = messages[at].1.payload.inputs@;
            let start = inputs_of(messages.take(at)).len() as int;
            let end = inputs_of(messages.take(at + 1)).len() as int;
            &&& 0 <= start <= end <= inputs.len()
            &&& match messages[at].0 {
                None => start == end && senderless(messages.take(at + 1)) == senderless(
                    messages.take(at),
                ) + 1,
                Some(sender) => {
                    let handed = as_entries(inputs.subrange(start, end));
                    &&& end - start == entries.len()
                    &&& forall|k: int| start <= k < end ==> (#[trigger] inputs[k]).sender == sender
                    &&& handed.to_multiset() == entries.to_multiset()
                    &&& is_ascending(handed)
                    &&& forall|tick: u64| #[trigger]
                        entries_at(handed, tick) == entries_at(entries, tick)
                    &&& senderless(messages.take(at + 1)) == senderless(messages.take(at))
                },
            }
        }),
{
    let inputs = inputs_of(messages);
    let entries = messages[at].1.payload.inputs@;
    let alone = messages.subrange(at, at + 1);
    let start = inputs_of(messages.take(at)).len() as int;
    let end = inputs_of(messages.take(at + 1)).len() as int;
    lemma_messages_are_read_alone(messages.take(at), alone);
    lemma_messages_are_read_alone(messages.take(at + 1), messages.skip(at + 1));
    assert(messages.take(at) + alone =~= messages.take(at + 1));
    assert(messages.take(at + 1) + messages.skip(at + 1) =~= messages);
    assert(alone.skip(1) =~= Seq::empty());
    assert(alone[0] == messages[at]);
    assert(inputs_of(alone.skip(1)) =~= Seq::empty());
    assert(senderless(alone.skip(1)) == 0);
    if let Some(sender) = messages[at].0 {
        lemma_inputs_come_in_tick_order(entries);
        let sent = sent_by(sender, by_tick(entries));
        assert(inputs_of(alone) =~= sent);
        assert(inputs.subrange(start, end) =~= sent);
        let handed = as_entries(inputs.subrange(start, end));
        assert(handed =~= by_tick(entries));
        assert forall|k: int| start <= k < end implies (#[trigger] inputs[k]).sender == sender by {
            assert(inputs[k] == sent[k - start]);
        }
        assert forall|tick: u64| #[trigger]
            entries_at(handed, tick) == entries_at(entries, tick) by {
            lemma_inputs_of_a_tick_keep_their_order(entries, tick);
        }
    }
}

/// How many entries the messages hold that have a sender.
pub open spec fn entries_sent<T>(messages: Seq<(Option<u128>, EnsembleInputMessage<T>)>) -> int {
    messages.fold_left(
        0int,
        |sum: int, message: (Option<u128>, EnsembleInputMessage<T>)|
            if message.0 is Some {
                sum + message.1.payload.inputs@.len()
            } else {
                sum
            },
    )
}

/// As many inputs are handed on as the messages with a sender hold entries, and as many messages
/// are skipped as there are without one.
pub proof fn lemma_no_entry_is_lost<T>(messages: Seq<(Option<u128>, EnsembleInputMessage<T>)>)
    ensures
        inputs_of(messages).len() == entries_sent(messages),
        senderless(messages) == messages.filter(
            |message: (Option<u128>, EnsembleInputMessage<T>)| message.0 is None,
        ).len(),
    decreases messages.len(),
{
    reveal(Seq::filter);
    if messages.len() > 0 {
        let at = messages.len() - 1;
        lemma_no_entry_is_lost(messages.drop_last());
        lemma_every_entry_is_handed_on(messages, at);
        assert(messages.take(at) =~= messages.drop_last());
        assert(messages.take(at + 1) =~= messages);
    }
}

// ---- going out -------------------------------------------------------------------------------

/// Whom a snapshot goes to.
#[derive(Clone, Debug, PartialEq, Eq)]
pub enum Recipients {
    /// Everyone in the lobby: nobody keeps a list of who is told the world.
    Everyone,
    /// These players and nobody else.
    These(Vec<u128>),
}

/// A snapshot on its way out.
pub struct OutgoingSnapshot {
    pub message: EnsembleSnapshotMessage,
    pub to: Recipients,
    /// What the wire will carry to each of them, in bytes.
    pub size: usize,
    /// How many times that size is counted.
    pub times: usize,
}

/// A snapshot goes to the peers that have been verified and to nobody else, where there is a
/// lobby at all, and to the whole lobby where no list of them is kept; its size on the wire is
/// counted once for each peer of the list, and once where there are none.
pub fn forward_outgoing_snapshots(
    lobby: bool,
    recipients: Option<&Vec<u128>>,
    snapshot: &Vec<u8>,
) -> (sent: Option<OutgoingSnapshot>)
    ensures
        sent is Some == lobby,
        sent matches Some(outgoing) ==> {
            &&& outgoing.message.bytes@ == snapshot@
            &&& outgoing.size == packed(snapshot@).len()
            &&& match recipients {
                Some(list) => {
                    &&& outgoing.to matches Recipients::These(named) && named@ == list@
                    &&& outgoing.times == (if list@.len() > 1 {
                        list@.len()
                    } else {
                        1
                    })
                },
                None => outgoing.to == Recipients::Everyone && outgoing.times == 1,
            }
        },
{
    if !lobby {
        return None;
    }
    let mut to = Recipients::Everyone;
    let mut times: usize = 1;
    if let Some(list) = recipients {
        let mut named: Vec<u128> = Vec::new();
        let mut index: usize = 0;
        while index < list.len()
            invariant
                index <= list@.len(),
                named@ == list@.take(index as int),
            decreases list@.len() - index,
        {
            named.push(list[index]);
            index = index + 1;
            assert(named@ =~= list@.take(index as int));
        }
        assert(named@ =~= list@);
        if named.len() > 1 {
            times = named.len();
        }
        to = Recipients::These(named);
    }
    let size: usize = match pack(snapshot) {
        Some(wire) => wire.len(),
        None => 0,
    };
    Some(
        OutgoingSnapshot {
            message: EnsembleSnapshotMessage { bytes: copy_bytes(snapshot) },
            to,
            size,
            times,
        },
    )
}

/// A player's inputs on their way out, where there is a lobby.
pub fn forward_outgoing_inputs<T>(lobby: bool, inputs: Vec<(u64, T)>) -> (sent: Option<
    EnsembleInputMessage<T>,
>)
    ensures
        sent is Some == lobby,
        sent matches Some(message) ==> message.payload.inputs@ == inputs@,
{
    if lobby {
        Some(EnsembleInputMessage { payload: NetworkInputPayload { inputs } })
    } else {
        None
    }
}

// ---- laws of snapshots -----------------------------------------------------------------------

/// Snapshots pass exactly when there is no handshake to wait for or the registries have been
/// compared, and those that pass are handed on one by one, as they came.
pub proof fn lemma_snapshots_wait_for_the_handshake(
    installed: Option<HandshakeInstalled>,
    verified: Option<RegistryVerified>,
    messages: Seq<EnsembleSnapshotMessage>,
)
    ensures
        installed is None ==> snapshots_pass(installed, verified),
        verified is Some ==> snapshots_pass(installed, verified),
        installed is Some && verified is None ==> !snapshots_pass(installed, verified),
        packets_of(messages).len() == messages.len(),
        forall|k: int|
            0 <= k < messages.len() ==> #[trigger] packets_of(messages)[k] == messages[k].bytes@,
{
}

/// A list of byte strings is seen as it is, one for one.
pub proof fn lemma_bytes_are_seen_one_for_one(list: Seq<Vec<u8>>)
    ensures
        byte_views(list).len() == list.len(),
        forall|k: int| 0 <= k < list.len() ==> #[trigger] byte_views(list)[k] == list[k]@,
{
}

} // verus!
