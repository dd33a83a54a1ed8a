//! Peers on one clock: who there is, what a frame is on each of them, and what a session being
//! settled means.
//!
//! [`TickedNetwork`] keeps the vocabulary of the stack on top of whatever carries the packets:
//! which uuid the next client gets, how often each peer runs, which clocks are to be put back, and
//! which ids the host has handed out.

use std::collections::BTreeSet;
use vstd::prelude::*;

use crate::packets::SentPacket;
use crate::peer::{HOST_UUID, TICK};

verus! {

broadcast use vstd::laws_cmp::group_laws_cmp;

/// What a peer is in the session: the authority, a follower, or neither.
///
/// Three-valued because two booleans would both be false for a solo player.
#[derive(Clone, Copy, Debug, PartialEq, Eq, Structural, Hash)]
pub enum Role {
    Host,
    Client,
    Solo,
}

/// A peer, by its place on the network.
#[derive(Clone, Copy, Debug, PartialEq, Eq, Structural, Hash)]
pub struct PeerId(pub usize);

/// How often a peer runs: `times` times in every `every`th network frame.
#[derive(Clone, Copy, Debug, PartialEq, Eq, Structural)]
pub struct Cadence {
    pub peer: PeerId,
    pub every: u32,
    pub times: u32,
}

/// A peer's frame length, in nanoseconds.
#[derive(Clone, Copy, Debug, PartialEq, Eq, Structural)]
pub struct FrameLength {
    pub peer: PeerId,
    pub frame: u128,
}

/// How a peer stands to the network.
#[derive(Clone, Copy, Debug, PartialEq, Eq, Structural)]
pub enum Attachment {
    Connected,
    /// Its join is not finished: packets flow, the roster does not know it.
    Pending,
    /// It hears, and nobody hears it.
    HalfOpen,
    /// Its link is down.
    Disconnected,
    /// It has left.
    Departed,
}

/// A peer on the network.
#[derive(Clone, Copy, Debug, PartialEq, Eq, Structural)]
pub struct PeerState {
    pub uuid: u128,
    pub attachment: Attachment,
}

/// One host, any number of clients, one clock.
pub struct TickedNetwork {
    /// Every peer there has been, in peer order.
    roster: Vec<PeerState>,
    host: PeerId,
    next_uuid: u128,
    /// Every tracked id seen on the host since recording was switched on.
    issued: Option<BTreeSet<u64>>,
    /// Empty while everyone runs at the network's frame rate.
    cadence: Vec<Cadence>,
    /// Network frames stepped so far; the slow peers' phase.
    frame: u64,
    /// Peers whose next frame is a long one, and the frame to put back.
    clock_restore: Vec<FrameLength>,
    /// Whether packets are being recorded.
    tracing: bool,
    trace: Vec<SentPacket>,
}

/// The contents of a [`TickedNetwork`].
#[verifier::ext_equal]
pub struct NetworkModel {
    pub roster: Seq<PeerState>,
    pub host: PeerId,
    pub next_uuid: u128,
    pub issued: Option<Set<u64>>,
    pub cadence: Seq<Cadence>,
    pub frame: u64,
    pub clock_restore: Seq<FrameLength>,
    pub tracing: bool,
    pub trace: Seq<SentPacket>,
}

impl View for TickedNetwork {
    type V = NetworkModel;

    closed spec fn view(&self) -> NetworkModel {
        NetworkModel {
            roster: self.roster@,
            host: self.host,
            next_uuid: self.next_uuid,
            issued: match self.issued {
                Some(set) => Some(set@),
                None => None,
            },
            cadence: self.cadence@,
            frame: self.frame,
            clock_restore: self.clock_restore@,
            tracing: self.tracing,
            trace: self.trace@,
        }
    }
}

/// Whether there is a host, every cadence runs its peer now and then, and no peer has two.
pub open spec fn is_network(net: NetworkModel) -> bool {
    &&& net.host.0 < net.roster.len()
    &&& forall|k: int|
        0 <= k < net.cadence.len() ==> (#[trigger] net.cadence[k]).every >= 1 && net.cadence[k].times
            >= 1
    &&& forall|j: int, k: int|
        0 <= j < k < net.cadence.len() ==> (#[trigger] net.cadence[j]).peer != (
        #[trigger] net.cadence[k]).peer
}

/// The place of the first cadence of `peer`, at or after `from`, or the number of cadences.
pub open spec fn cadence_place(cadence: Seq<Cadence>, peer: PeerId, from: int) -> int
    decreases cadence.len() - from,
{
    if from < 0 || from >= cadence.len() || cadence[from].peer == peer {
        from
    } else {
        cadence_place(cadence, peer, from + 1)
    }
}

/// How many times a peer runs in frame `frame`: once, unless it has a cadence.
pub open spec fn updates_in(cadence: Seq<Cadence>, peer: PeerId, frame: u64) -> u32 {
    let place = cadence_place(cadence, peer, 0);
    if place >= cadence.len() {
        1
    } else if frame as int % cadence[place].every as int == 0 {
        cadence[place].times
    } else {
        0
    }
}

/// The cadences once `peer` runs `times` times in every `every`th frame: none is kept of a peer
/// that runs at the network's frame rate.
pub open spec fn with_cadence(
    cadence: Seq<Cadence>,
    peer: PeerId,
    every: u32,
    times: u32,
) -> Seq<Cadence> {
    cadence.filter(|other: Cadence| other.peer != peer) + (if every == 1 && times == 1 {
        Seq::empty()
    } else {
        seq![Cadence { peer, every, times }]
    })
}

/// What one frame is on every peer.
pub struct FramePlan {
    /// How many times each peer runs, in the order the peers were given.
    pub updates: Vec<u32>,
    /// The clocks to put back behind it.
    pub restore: Vec<FrameLength>,
}

/// A peer that does not run for a while.
pub struct FreezePlan {
    /// Everybody else, who runs in every one of the frames.
    pub others: Vec<PeerId>,
    /// How long the frozen peer's next frame is, in nanoseconds: as long as the freeze, which is
    /// what a real clock reports afterwards.
    pub long_frame: u128,
}

impl TickedNetwork {
    /// Whether there is a host, every cadence runs its peer now and then, and no peer has two.
    pub open spec fn wf(&self) -> bool {
        is_network(self@)
    }

    /// A host with [`HOST_UUID`] and `clients` clients numbered from 2.
    pub fn client_server(clients: usize) -> (net: TickedNetwork)
        ensures
            net.wf(),
            net@ == (NetworkModel {
                roster: seats(clients as nat),
                host: PeerId(0),
                next_uuid: (HOST_UUID + 1 + clients) as u128,
                issued: None,
                cadence: Seq::empty(),
                frame: 0,
                clock_restore: Seq::empty(),
                tracing: false,
                trace: Seq::empty(),
            }),
    {
        let mut roster: Vec<PeerState> = Vec::new();
        roster.push(PeerState { uuid: HOST_UUID, attachment: Attachment::Connected });
        let mut net = TickedNetwork {
            roster,
            host: PeerId(0),
            next_uuid: HOST_UUID + 1,
            issued: None,
            cadence: Vec::new(),
            frame: 0,
            clock_restore: Vec::new(),
            tracing: false,
            trace: Vec::new(),
        };
        let mut index: usize = 0;
        assert(net@.roster =~= seats(0));
        while index < clients
            invariant
                index <= clients,
                net.wf(),
                net@ == (NetworkModel {
                    roster: seats(index as nat),
                    host: PeerId(0),
                    next_uuid: (HOST_UUID + 1 + index) as u128,
                    issued: None,
                    cadence: Seq::empty(),
                    frame: 0,
                    clock_restore: Seq::empty(),
                    tracing: false,
                    trace: Seq::empty(),
                }),
            decreases clients - index,
        {
            net.add_client();
            index = index + 1;
            assert(net@.roster =~= seats(index as nat));
        }
        net
    }

    // ---- peers -------------------------------------------------------------------------------

    /// The next client's uuid.
    fn mint_uuid(&mut self) -> (uuid: u128)
        requires
            old(self).wf(),
            old(self)@.next_uuid < u128::MAX,
        ensures
            final(self).wf(),
            uuid == old(self)@.next_uuid,
            final(self)@ == (NetworkModel { next_uuid: (uuid + 1) as u128, ..old(self)@ }),
    {
        let uuid: u128 = self.next_uuid;
        self.next_uuid = uuid + 1;
        uuid
    }

    /// Attach a peer with the next uuid.
    fn add_peer(&mut self, attachment: Attachment) -> (peer: PeerId)
        requires
            old(self).wf(),
            old(self)@.next_uuid < u128::MAX,
        ensures
            final(self).wf(),
            peer.0 == old(self)@.roster.len(),
            final(self)@ == (NetworkModel {
                roster: old(self)@.roster.push(
                    PeerState { uuid: old(self)@.next_uuid, attachment },
                ),
                next_uuid: (old(self)@.next_uuid + 1) as u128,
                ..old(self)@
            }),
    {
        let uuid: u128 = self.mint_uuid();
        let peer = PeerId(self.roster.len());
        self.roster.push(PeerState { uuid, attachment });
        peer
    }

    /// Attach another client, with the next uuid.
    pub fn add_client(&mut self) -> (peer: PeerId)
        requires
            old(self).wf(),
            old(self)@.next_uuid < u128::MAX,
        ensures
            final(self).wf(),
            peer.0 == old(self)@.roster.len(),
            final(self)@ == (NetworkModel {
                roster: old(self)@.roster.push(
                    PeerState {
                        uuid: old(self)@.next_uuid,
                        attachment: Attachment::Connected,
                    },
                ),
                next_uuid: (old(self)@.next_uuid + 1) as u128,
                ..old(self)@
            }),
    {
        self.add_peer(Attachment::Connected)
    }

    /// Attach a client whose join is not finished. [`promote`](Self::promote) finishes the join.
    pub fn add_pending_client(&mut self) -> (peer: PeerId)
        requires
            old(self).wf(),
            old(self)@.next_uuid < u128::MAX,
        ensures
            final(self).wf(),
            peer.0 == old(self)@.roster.len(),
            final(self)@ == (NetworkModel {
                roster: old(self)@.roster.push(
                    PeerState { uuid: old(self)@.next_uuid, attachment: Attachment::Pending },
                ),
                next_uuid: (old(self)@.next_uuid + 1) as u128,
                ..old(self)@
            }),
    {
        self.add_peer(Attachment::Pending)
    }

    /// Note how `peer` stands to the network from now on.
    fn attach(&mut self, peer: PeerId, attachment: Attachment)
        requires
            old(self).wf(),
            peer.0 < old(self)@.roster.len(),
        ensures
            final(self).wf(),
            final(self)@ == with_attachment(old(self)@, peer, attachment),
    {
        let uuid: u128 = self.roster[peer.0].uuid;
        self.roster.set(peer.0, PeerState { uuid, attachment });
    }

    /// Finish the join of a pending client.
    pub fn promote(&mut self, peer: PeerId)
        requires
            old(self).wf(),
            peer.0 < old(self)@.roster.len(),
        ensures
            final(self).wf(),
            final(self)@ == with_attachment(old(self)@, peer, Attachment::Connected),
    {
        self.attach(peer, Attachment::Connected);
    }

    /// `peer` leaves.
    pub fn leave(&mut self, peer: PeerId)
        requires
            old(self).wf(),
            peer.0 < old(self)@.roster.len(),
        ensures
            final(self).wf(),
            final(self)@ == with_attachment(old(self)@, peer, Attachment::Departed),
    {
        self.attach(peer, Attachment::Departed);
    }

    /// A peer that left comes back, under the uuid it had.
    pub fn rejoin(&mut self, peer: PeerId)
        requires
            old(self).wf(),
            peer.0 < old(self)@.roster.len(),
        ensures
            final(self).wf(),
            final(self)@ == with_attachment(old(self)@, peer, Attachment::Connected),
    {
        self.attach(peer, Attachment::Connected);
    }

    /// `new_host` is the host from now on.
    pub fn rehost(&mut self, new_host: PeerId)
        requires
            old(self).wf(),
            new_host.0 < old(self)@.roster.len(),
        ensures
            final(self).wf(),
            final(self)@ == (NetworkModel { host: new_host, ..old(self)@ }),
    {
        self.host = new_host;
    }

    /// The link of `peer` goes down.
    pub fn disconnect(&mut self, peer: PeerId)
        requires
            old(self).wf(),
            peer.0 < old(self)@.roster.len(),
        ensures
            final(self).wf(),
            final(self)@ == with_attachment(old(self)@, peer, Attachment::Disconnected),
    {
        self.attach(peer, Attachment::Disconnected);
    }

    /// Nobody hears `peer` from now on.
    pub fn half_open(&mut self, peer: PeerId)
        requires
            old(self).wf(),
            peer.0 < old(self)@.roster.len(),
        ensures
            final(self).wf(),
            final(self)@ == with_attachment(old(self)@, peer, Attachment::HalfOpen),
    {
        self.attach(peer, Attachment::HalfOpen);
    }

    /// The link of `peer` comes up again.
    pub fn reconnect(&mut self, peer: PeerId)
        requires
            old(self).wf(),
            peer.0 < old(self)@.roster.len(),
        ensures
            final(self).wf(),
            final(self)@ == with_attachment(old(self)@, peer, Attachment::Connected),
    {
        self.attach(peer, Attachment::Connected);
    }

    // ---- looking around ----------------------------------------------------------------------

    /// The host.
    pub fn host(&self) -> (peer: PeerId)
        ensures
            peer == self@.host,
    {
        self.host
    }

    /// Every peer, in peer order.
    pub fn peers(&self) -> (list: Vec<PeerId>)
        ensures
            list@ == peer_ids(self@),
    {
        let mut list: Vec<PeerId> = Vec::new();
        let mut index: usize = 0;
        while index < self.roster.len()
            invariant
                index <= self.roster@.len(),
                list@.len() == index,
                forall|k: int| 0 <= k < index ==> (#[trigger] list@[k]).0 == k,
            decreases self.roster@.len() - index,
        {
            list.push(PeerId(index));
            index = index + 1;
        }
        assert(list@ =~= peer_ids(self@));
        list
    }

    /// Every peer that is not the host, in peer order.
    pub fn clients(&self) -> (list: Vec<PeerId>)
        ensures
            list@ == client_ids(self@),
    {
        let peers = self.peers();
        everyone_but(&peers, self.host)
    }

    /// The first client, where there is one.
    pub fn client(&self) -> (first: Option<PeerId>)
        ensures
            first == (if client_ids(self@).len() > 0 {
                Some(client_ids(self@)[0])
            } else {
                None
            }),
    {
        let list = self.clients();
        if list.len() > 0 {
            Some(list[0])
        } else {
            None
        }
    }

    /// Peers that are on the network as far as the session is concerned: connected or pending.
    /// Half-open, disconnected and departed peers are left out of "everyone".
    pub fn attached(&self) -> (list: Vec<PeerId>)
        ensures
            list@ == attached_ids(self@),
    {
        let peers = self.peers();
        let mut list: Vec<PeerId> = Vec::new();
        let mut index: usize = 0;
        let ghost keep = |peer: PeerId| is_attached(self@.roster[peer.0 as int]);
        reveal(Seq::filter);
        assert(list@ =~= peers@.take(0).filter(keep));
        assert(peers@.len() == self.roster@.len());
        while index < peers.len()
            invariant
                index <= peers@.len() == self.roster@.len(),
                peers@ == peer_ids(self@),
                keep == (|peer: PeerId| is_attached(self@.roster[peer.0 as int])),
                list@ == peers@.take(index as int).filter(keep),
            decreases peers@.len() - index,
        {
            let ghost upto = peers@.take(index + 1);
            assert(upto.drop_last() =~= peers@.take(index as int));
            assert(upto.last() == peers@[index as int]);
            reveal(Seq::filter);
            let there = match self.roster[index].attachment {
                Attachment::Connected => true,
                Attachment::Pending => true,
                _ => false,
            };
            if there {
                list.push(peers[index]);
            }
            index = index + 1;
        }
        assert(peers@.take(index as int) =~= peers@);
        list
    }

    /// The uuid of `peer`.
    pub fn uuid(&self, peer: PeerId) -> (uuid: u128)
        requires
            peer.0 < self@.roster.len(),
        ensures
            uuid == self@.roster[peer.0 as int].uuid,
    {
        self.roster[peer.0].uuid
    }

    /// The first peer that owns `uuid`.
    pub fn peer_by_uuid(&self, uuid: u128) -> (peer: Option<PeerId>)
        ensures
            match peer {
                Some(found) => is_owner(self@, found, uuid),
                None => !owns_any(self@, uuid),
            },
    {
        let mut index: usize = 0;
        while index < self.roster.len()
            invariant
                index <= self.roster@.len(),
                forall|k: int| 0 <= k < index ==> (#[trigger] self.roster@[k]).uuid != uuid,
            decreases self.roster@.len() - index,
        {
            if self.roster[index].uuid == uuid {
                return Some(PeerId(index));
            }
            index = index + 1;
        }
        None
    }

    // ---- the frame loop ----------------------------------------------------------------------

    /// How many times `peer` runs in the coming frame.
    pub fn updates_for(&self, peer: PeerId) -> (updates: u32)
        requires
            self.wf(),
        ensures
            updates == updates_in(self@.cadence, peer, self@.frame),
    {
        let mut index: usize = 0;
        while index < self.cadence.len() && self.cadence[index].peer.0 != peer.0
            invariant
                index <= self.cadence@.len(),
                self.wf(),
                cadence_place(self.cadence@, peer, 0) == cadence_place(
                    self.cadence@,
                    peer,
                    index as int,
                ),
            decreases self.cadence@.len() - index,
        {
            index = index + 1;
        }
        if index >= self.cadence.len() {
            return 1;
        }
        let found = self.cadence[index];
        assert(self@.cadence[index as int].every >= 1);
        if self.frame % (found.every as u64) == 0 {
            found.times
        } else {
            0
        }
    }

    /// One frame on every peer.
    ///
    /// Wall time is the network's frame for everyone; a peer with a cadence runs fewer or more
    /// times in it, never a longer or shorter frame than the clock says.
    pub fn step(&mut self) -> (plan: FramePlan)
        requires
            old(self).wf(),
            old(self)@.frame < u64::MAX,
        ensures
            final(self).wf(),
            final(self)@ == (NetworkModel {
                frame: (old(self)@.frame + 1) as u64,
                clock_restore: Seq::empty(),
                ..old(self)@
            }),
            plan.restore@ == old(self)@.clock_restore,
            plan.updates@.len() == old(self)@.roster.len(),
            forall|k: int|
                0 <= k < plan.updates@.len() ==> #[trigger] plan.updates@[k] == updates_in(
                    old(self)@.cadence,
                    PeerId(k as usize),
                    old(self)@.frame,
                ),
    {
        let mut restore: Vec<FrameLength> = Vec::new();
        restore.append(&mut self.clock_restore);
        assert(restore@ =~= old(self)@.clock_restore);
        let mut updates: Vec<u32> = Vec::new();
        let mut index: usize = 0;
        while index < self.roster.len()
            invariant
                index <= self.roster@.len(),
                self.wf(),
                self@ == (NetworkModel { clock_restore: Seq::empty(), ..old(self)@ }),
                updates@.len() == index,
                forall|k: int|
                    0 <= k < index ==> #[trigger] updates@[k] == updates_in(
                        old(self)@.cadence,
                        PeerId(k as usize),
                        old(self)@.frame,
                    ),
            decreases self.roster@.len() - index,
        {
            let count: u32 = self.updates_for(PeerId(index));
            updates.push(count);
            index = index + 1;
        }
        self.frame = self.frame + 1;
        FramePlan { updates, restore }
    }

    /// `frames` frames in which `peer` does not run: no update, nothing sent, and what arrives for
    /// it waits. `frame` is the length of its frames in nanoseconds. A backgrounded tab, from the
    /// outside. They are no frames of the cadences, which go on behind it where they stood.
    pub fn freeze(
        &mut self,
        peer: PeerId,
        frame: u128,
        frames: u32,
    ) -> (plan: FreezePlan)
        requires
            old(self).wf(),
            frame * frames <= u128::MAX,
        ensures
            final(self).wf(),
            final(self)@ == (NetworkModel {
                clock_restore: old(self)@.clock_restore.push(FrameLength { peer, frame }),
                ..old(self)@
            }),
            plan.others@ == peer_ids(old(self)@).filter(|other: PeerId| other != peer),
            plan.long_frame == frame * frames,
    {
        let peers = self.peers();
        let others = everyone_but(&peers, peer);
        self.clock_restore.push(FrameLength { peer, frame });
        FreezePlan { others, long_frame: frame * (frames as u128) }
    }

    /// From now on `peer` renders at a different rate: it runs `times` times in every `every`th
    /// network frame. One of the two is 1: a slow peer's frame is a whole number of ticks, a fast
    /// one's the reciprocal of one, and both being 1 puts it back.
    ///
    /// Wall time stays the network's: a slow peer does not fall behind the clock and a fast one
    /// does not run ahead of it.
    pub fn set_ticks_per_frame(&mut self, peer: PeerId, every: u32, times: u32)
        requires
            old(self).wf(),
            every >= 1,
            times >= 1,
        ensures
            final(self).wf(),
            final(self)@ == (NetworkModel {
                cadence: old(self)@.cadence.filter(|other: Cadence| other.peer != peer) + (if every
                    == 1 && times == 1 {
                    Seq::empty()
                } else {
                    seq![Cadence { peer, every, times }]
                }),
                ..old(self)@
            }),
            final(self)@.cadence == with_cadence(old(self)@.cadence, peer, every, times),
    {
        let mut kept: Vec<Cadence> = Vec::new();
        let mut index: usize = 0;
        let ghost all = self.cadence@;
        let ghost others = |other: Cadence| other.peer != peer;
        reveal(Seq::filter);
        assert(kept@ =~= all.take(0).filter(others));
        while index < self.cadence.len()
            invariant
                index <= all.len(),
                all == self.cadence@,
                self@ == old(self)@,
                self.wf(),
                others == (|other: Cadence| other.peer != peer),
                kept@ == all.take(index as int).filter(others),
                forall|k: int|
                    0 <= k < kept@.len() ==> (#[trigger] kept@[k]).every >= 1 && kept@[k].times >= 1
                        && kept@[k].peer != peer,
                forall|k: int|
                    0 <= k < kept@.len() ==> exists|i: int|
                        0 <= i < index && all[i] == #[trigger] kept@[k],
                forall|j: int, k: int|
                    0 <= j < k < kept@.len() ==> (#[trigger] kept@[j]).peer != (
                    #[trigger] kept@[k]).peer,
            decreases all.len() - index,
        {
            let ghost upto = all.take(index + 1);
            assert(upto.drop_last() =~= all.take(index as int));
            assert(upto.last() == all[index as int]);
            reveal(Seq::filter);
            let one = self.cadence[index];
            assert(self@.cadence[index as int] == one);
            if one.peer.0 != peer.0 {
                let ghost had = kept@;
                kept.push(one);
                assert forall|j: int, k: int| 0 <= j < k < kept@.len() implies (
                #[trigger] kept@[j]).peer != (#[trigger] kept@[k]).peer by {
                    if k == had.len() {
                        let i = choose|i: int| 0 <= i < index && all[i] == had[j];
                        assert(had[j] == kept@[j]);
                        assert(all[i].peer != all[index as int].peer);
                    }
                }
                assert forall|k: int| 0 <= k < kept@.len() implies exists|i: int|
                    0 <= i < index + 1 && all[i] == #[trigger] kept@[k] by {
                    if k < had.len() {
                        assert(had[k] == kept@[k]);
                        let i = choose|i: int| 0 <= i < index && all[i] == had[k];
                        assert(all[i] == kept@[k]);
                    } else {
                        assert(all[index as int] == kept@[k]);
                    }
                }
            }
            index = index + 1;
        }
        assert(all.take(index as int) =~= all);
        if !(every == 1 && times == 1) {
            kept.push(Cadence { peer, every, times });
        }
        self.cadence = kept;
        assert(self@.cadence =~= with_cadence(old(self)@.cadence, peer, every, times));
    }

    // ---- the wire ----------------------------------------------------------------------------

    /// Start recording every packet. Off at first; the record grows while on.
    pub fn trace_packets(&mut self)
        requires
            old(self).wf(),
        ensures
            final(self).wf(),
            final(self)@ == (NetworkModel { tracing: true, ..old(self)@ }),
    {
        self.tracing = true;
    }

    /// A packet has been handed to the network: note it, if packets are being recorded.
    pub fn note_packet(&mut self, packet: SentPacket)
        requires
            old(self).wf(),
        ensures
            final(self).wf(),
            final(self)@ == (NetworkModel {
                trace: if old(self)@.tracing {
                    old(self)@.trace.push(packet)
                } else {
                    old(self)@.trace
                },
                ..old(self)@
            }),
    {
        if self.tracing {
            self.trace.push(packet);
        }
    }

    /// The packets recorded so far, in send order.
    pub fn trace(&self) -> (packets: &Vec<SentPacket>)
        ensures
            packets@ == self@.trace,
    {
        &self.trace
    }

    /// The packets recorded so far, which are forgotten.
    pub fn take_trace(&mut self) -> (packets: Vec<SentPacket>)
        requires
            old(self).wf(),
        ensures
            final(self).wf(),
            packets@ == old(self)@.trace,
            final(self)@ == (NetworkModel { trace: Seq::empty(), ..old(self)@ }),
    {
        let mut packets: Vec<SentPacket> = Vec::new();
        packets.append(&mut self.trace);
        assert(packets@ =~= old(self)@.trace);
        packets
    }

    // ---- waiting -----------------------------------------------------------------------------

    /// What a wait of at most `max_frames` frames does after `frames` of them, where its condition
    /// `holds` or not: step once more, or end saying whether it held.
    pub fn run_until(max_frames: usize, frames: usize, holds: bool) -> (ended: Option<bool>)
        requires
            frames <= max_frames,
        ensures
            ended == wait_step(max_frames, frames, holds),
    {
        if holds {
            return Some(true);
        }
        if frames < max_frames {
            None
        } else {
            Some(false)
        }
    }

    /// What a wait for a peer to simulate `target` does, where it is at `tick`.
    pub fn run_until_tick(max_frames: usize, frames: usize, tick: u64, target: u64) -> (ended:
        Option<bool>)
        requires
            frames <= max_frames,
        ensures
            ended == wait_step(max_frames, frames, tick >= target),
    {
        Self::run_until(max_frames, frames, tick >= target)
    }

    /// What a wait for every attached peer to hold a role does. A host that has not adopted yet is
    /// not broadcasting, and a client that has not is dropping every snapshot at the door.
    pub fn adopt_roles(max_frames: usize, frames: usize, roles: &Vec<Role>) -> (ended: Option<bool>)
        requires
            frames <= max_frames,
        ensures
            ended == wait_step(max_frames, frames, have_roles(roles@)),
    {
        Self::run_until(max_frames, frames, roles_adopted(roles))
    }

    /// What a wait for the session to be running does: roles adopted, every attached client has
    /// applied a snapshot, and every one of them leads the host.
    ///
    /// The third condition is the one that matters: a client that has applied a snapshot and does
    /// *not* lead has every input it will ever send arrive too late to be read.
    pub fn settle(max_frames: usize, frames: usize, host_tick: u64, peers: &Vec<PeerView>) -> (ended:
        Option<bool>)
        requires
            frames <= max_frames,
        ensures
            ended == wait_step(max_frames, frames, are_settled(peers@, host_tick)),
    {
        Self::run_until(max_frames, frames, settled(host_tick, peers))
    }

    // ---- id bookkeeping ----------------------------------------------------------------------

    /// From now on, note every tracked id the host holds after each frame; `held` is what it holds
    /// now.
    ///
    /// A set rather than a high-water mark, because a client-minted id is usually *below* the
    /// host's high-water mark and a threshold would never see it.
    pub fn record_issued_ids(&mut self, held: &Vec<u64>)
        requires
            old(self).wf(),
        ensures
            final(self).wf(),
            final(self)@ == (NetworkModel { issued: Some(held@.to_set()), ..old(self)@ }),
    {
        self.issued = Some(BTreeSet::new());
        self.after_frame(held);
        assert(Set::<u64>::empty().union(held@.to_set()) =~= held@.to_set());
    }

    /// The ids recorded so far, or `None` if recording was never switched on.
    pub fn issued_ids(&self) -> (ids: Option<&BTreeSet<u64>>)
        ensures
            match ids {
                Some(set) => self@.issued == Some(set@),
                None => self@.issued is None,
            },
    {
        self.issued.as_ref()
    }

    /// Note what the host holds after a frame, if recording is on.
    pub fn after_frame(&mut self, held: &Vec<u64>)
        requires
            old(self).wf(),
        ensures
            final(self).wf(),
            final(self)@ == (NetworkModel {
                issued: match old(self)@.issued {
                    Some(set) => Some(set.union(held@.to_set())),
                    None => None,
                },
                ..old(self)@
            }),
    {
        let ghost before_frame = self@;
        if let Some(set) = &self.issued {
            let mut noted = set.clone();
            let ghost had = noted@;
            let mut index: usize = 0;
            assert(held@.take(0).to_set() =~= Set::<u64>::empty());
            assert(had.union(Set::<u64>::empty()) =~= had);
            while index < held.len()
                invariant
                    index <= held@.len(),
                    noted@ == had.union(held@.take(index as int).to_set()),
                decreases held@.len() - index,
            {
                let ghost upto = held@.take(index as int);
                noted.insert(held[index]);
                assert(held@.take(index + 1) =~= upto.push(held@[index as int]));
                assert(upto.push(held@[index as int]).to_set() =~= upto.to_set().insert(
                    held@[index as int],
                )) by {
                    assert forall|value: u64|
                        upto.push(held@[index as int]).to_set().contains(value)
                            <==> upto.to_set().insert(held@[index as int]).contains(value) by {
                        if upto.contains(value) {
                            let k = choose|k: int| 0 <= k < upto.len() && upto[k] == value;
                            assert(upto.push(held@[index as int])[k] == value);
                        }
                        if value == held@[index as int] {
                            assert(upto.push(held@[index as int])[upto.len() as int] == value);
                        }
                    }
                }
                index = index + 1;
                assert(noted@ =~= had.union(held@.take(index as int).to_set()));
            }
            assert(held@.take(index as int) =~= held@);
            self.issued = Some(noted);
        }
    }
}

/// Every peer but one, in peer order.
fn everyone_but(peers: &Vec<PeerId>, peer: PeerId) -> (others: Vec<PeerId>)
    ensures
        others@ == peers@.filter(|other: PeerId| other != peer),
{
    let mut others: Vec<PeerId> = Vec::new();
    let mut index: usize = 0;
    let ghost keep = |other: PeerId| other != peer;
    reveal(Seq::filter);
    assert(others@ =~= peers@.take(0).filter(keep));
    while index < peers.len()
        invariant
            index <= peers@.len(),
            keep == (|other: PeerId| other != peer),
            others@ == peers@.take(index as int).filter(keep),
        decreases peers@.len() - index,
    {
        let ghost upto = peers@.take(index + 1);
        assert(upto.drop_last() =~= peers@.take(index as int));
        assert(upto.last() == peers@[index as int]);
        reveal(Seq::filter);
        if peers[index].0 != peer.0 {
            others.push(peers[index]);
        }
        index = index + 1;
    }
    assert(peers@.take(index as int) =~= peers@);
    others
}

// ---- looking around --------------------------------------------------------------------------

/// A host and `clients` clients, all connected, numbered from [`HOST_UUID`].
pub open spec fn seats(clients: nat) -> Seq<PeerState> {
    Seq::new(
        clients + 1,
        |k: int| PeerState { uuid: (HOST_UUID + k) as u128, attachment: Attachment::Connected },
    )
}

/// A network in which one peer stands differently.
pub open spec fn with_attachment(
    net: NetworkModel,
    peer: PeerId,
    attachment: Attachment,
) -> NetworkModel {
    NetworkModel {
        roster: net.roster.update(
            peer.0 as int,
            PeerState { uuid: net.roster[peer.0 as int].uuid, attachment },
        ),
        ..net
    }
}

/// Every peer, in peer order.
pub open spec fn peer_ids(net: NetworkModel) -> Seq<PeerId> {
    Seq::new(net.roster.len(), |k: int| PeerId(k as usize))
}

/// Every peer that is not the host, in peer order.
pub open spec fn client_ids(net: NetworkModel) -> Seq<PeerId> {
    peer_ids(net).filter(|other: PeerId| other != net.host)
}

/// Whether a peer is on the network as far as the session is concerned.
pub open spec fn is_attached(peer: PeerState) -> bool {
    peer.attachment == Attachment::Connected || peer.attachment == Attachment::Pending
}

/// Every attached peer, in peer order.
pub open spec fn attached_ids(net: NetworkModel) -> Seq<PeerId> {
    peer_ids(net).filter(|peer: PeerId| is_attached(net.roster[peer.0 as int]))
}

/// Whether some peer owns `uuid`.
pub open spec fn owns_any(net: NetworkModel, uuid: u128) -> bool {
    exists|k: int| 0 <= k < net.roster.len() && (#[trigger] net.roster[k]).uuid == uuid
}

/// Whether `peer` is the first that owns `uuid`.
pub open spec fn is_owner(net: NetworkModel, peer: PeerId, uuid: u128) -> bool {
    &&& peer.0 < net.roster.len()
    &&& net.roster[peer.0 as int].uuid == uuid
    &&& forall|k: int| 0 <= k < peer.0 ==> (#[trigger] net.roster[k]).uuid != uuid
}

/// Whether every uuid is below the next one to be given out, and no two peers share one.
pub open spec fn are_uuids_distinct(net: NetworkModel) -> bool {
    &&& forall|k: int|
        0 <= k < net.roster.len() ==> (#[trigger] net.roster[k]).uuid < net.next_uuid
    &&& forall|j: int, k: int|
        0 <= j < k < net.roster.len() ==> (#[trigger] net.roster[j]).uuid != (
        #[trigger] net.roster[k]).uuid
}

/// A network starts with distinct uuids, and keeps them distinct when a peer is added or stands
/// differently.
pub proof fn lemma_uuids_stay_distinct(
    net: NetworkModel,
    peer: PeerId,
    attachment: Attachment,
    clients: nat,
)
    requires
        are_uuids_distinct(net),
        net.next_uuid < u128::MAX,
        peer.0 < net.roster.len(),
        HOST_UUID + 1 + clients <= u128::MAX,
    ensures
        are_uuids_distinct(with_attachment(net, peer, attachment)),
        are_uuids_distinct(
            NetworkModel {
                roster: net.roster.push(PeerState { uuid: net.next_uuid, attachment }),
                next_uuid: (net.next_uuid + 1) as u128,
                ..net
            },
        ),
        are_uuids_distinct(
            NetworkModel {
                roster: seats(clients),
                next_uuid: (HOST_UUID + 1 + clients) as u128,
                ..net
            },
        ),
{
    let changed = with_attachment(net, peer, attachment);
    assert forall|k: int| 0 <= k < changed.roster.len() implies (#[trigger] changed.roster[k]).uuid
        == net.roster[k].uuid by {}
    assert forall|j: int, k: int| 0 <= j < k < changed.roster.len() implies (
    #[trigger] changed.roster[j]).uuid != (#[trigger] changed.roster[k]).uuid by {
        assert(net.roster[j].uuid != net.roster[k].uuid);
    }
}

/// Which role a peer holds, from the players it hosts and is a client as.
pub fn role(server: Option<u128>, client: Option<u128>) -> (held: Role)
    ensures
        held == (if server is Some {
            Role::Host
        } else if client is Some {
            Role::Client
        } else {
            Role::Solo
        }),
{
    if server.is_some() {
        Role::Host
    } else if client.is_some() {
        Role::Client
    } else {
        Role::Solo
    }
}

/// How many ticks one clock is ahead of another.
pub open spec fn ticks_ahead(tick: u64, other: u64) -> int {
    tick - other
}

/// How many ticks a client runs ahead of its host. Negative when it has fallen behind.
pub fn lead(client_tick: u64, host_tick: u64) -> (ticks: i64)
    requires
        i64::MIN <= ticks_ahead(client_tick, host_tick) <= i64::MAX,
    ensures
        ticks == ticks_ahead(client_tick, host_tick),
{
    (client_tick as i128 - host_tick as i128) as i64
}

/// How many ticks a peer is behind the host. Negative when it leads, which is where a client
/// belongs; positive is a client whose inputs are arriving late.
pub fn trails_host_by(host_tick: u64, peer_tick: u64) -> (ticks: i64)
    requires
        i64::MIN <= ticks_ahead(host_tick, peer_tick) <= i64::MAX,
    ensures
        ticks == ticks_ahead(host_tick, peer_tick),
{
    (host_tick as i128 - peer_tick as i128) as i64
}

/// A client trails its host by as much as it leads it, the other way round.
pub proof fn lemma_trailing_mirrors_leading(client_tick: u64, host_tick: u64)
    ensures
        ticks_ahead(host_tick, client_tick) == -ticks_ahead(client_tick, host_tick),
{
}

// ---- waiting ---------------------------------------------------------------------------------

/// What a wait of at most `max_frames` frames does after `frames` of them, where its condition
/// `holds` or not: step once more, or end saying whether it held.
pub open spec fn wait_step(max_frames: usize, frames: usize, holds: bool) -> Option<bool> {
    if holds {
        Some(true)
    } else if frames < max_frames {
        None
    } else {
        Some(false)
    }
}

/// After how many frames a wait ends that has come to `frames`, where `held` says of each number
/// of frames whether the condition holds behind it.
pub open spec fn wait_length(max_frames: usize, held: spec_fn(usize) -> bool, frames: usize) -> usize
    decreases max_frames - frames,
{
    if frames >= max_frames || wait_step(max_frames, frames, held(frames)) is Some {
        frames
    } else {
        wait_length(max_frames, held, (frames + 1) as usize)
    }
}

/// A wait steps no more often than it was allowed to, ends at the first frame at which its
/// condition holds, and says at its end whether the condition held at some frame it could come to.
pub proof fn lemma_wait_ends(max_frames: usize, held: spec_fn(usize) -> bool, frames: usize)
    requires
        frames <= max_frames,
    ensures
        ({
            let end = wait_length(max_frames, held, frames);
            &&& frames <= end <= max_frames
            &&& forall|k: usize| frames <= k < end ==> !#[trigger] held(k)
            &&& wait_step(max_frames, end, held(end)) == Some(held(end))
            &&& held(end) <==> exists|k: usize| frames <= k <= max_frames && #[trigger] held(k)
        }),
    decreases max_frames - frames,
{
    if frames < max_frames && !held(frames) {
        lemma_wait_ends(max_frames, held, (frames + 1) as usize);
    }
}

/// Whether every peer holds a role.
pub open spec fn have_roles(roles: Seq<Role>) -> bool {
    forall|k: int| 0 <= k < roles.len() ==> #[trigger] roles[k] != Role::Solo
}

/// Whether every peer holds a role.
fn roles_adopted(roles: &Vec<Role>) -> (adopted: bool)
    ensures
        adopted == have_roles(roles@),
{
    let mut index: usize = 0;
    while index < roles.len()
        invariant
            index <= roles@.len(),
            forall|k: int| 0 <= k < index ==> #[trigger] roles@[k] != Role::Solo,
        decreases roles@.len() - index,
    {
        if roles[index] == Role::Solo {
            assert(roles@[index as int] == Role::Solo);
            return false;
        }
        index = index + 1;
    }
    true
}

/// What an attached peer shows of itself.
#[derive(Clone, Copy, Debug, PartialEq, Eq, Structural)]
pub struct PeerView {
    pub role: Role,
    pub tick: u64,
    /// The tick of the last snapshot it applied.
    pub applied: Option<u64>,
}

/// Whether a peer is where it should be: the host, or a client that has applied a snapshot and
/// leads the host.
pub open spec fn is_settled(peer: PeerView, host_tick: u64) -> bool {
    match peer.role {
        Role::Host => true,
        Role::Client => peer.applied is Some && peer.tick > host_tick,
        Role::Solo => false,
    }
}

/// Whether the session is running.
pub open spec fn are_settled(peers: Seq<PeerView>, host_tick: u64) -> bool {
    forall|k: int| 0 <= k < peers.len() ==> is_settled(#[trigger] peers[k], host_tick)
}

/// Whether the session is running.
fn settled(host_tick: u64, peers: &Vec<PeerView>) -> (running: bool)
    ensures
        running == are_settled(peers@, host_tick),
{
    let mut index: usize = 0;
    while index < peers.len()
        invariant
            index <= peers@.len(),
            forall|k: int| 0 <= k < index ==> is_settled(#[trigger] peers@[k], host_tick),
        decreases peers@.len() - index,
    {
        let peer = peers[index];
        let there = match peer.role {
            Role::Host => true,
            Role::Client => peer.applied.is_some() && peer.tick > host_tick,
            Role::Solo => false,
        };
        if !there {
            assert(!is_settled(peers@[index as int], host_tick));
            return false;
        }
        index = index + 1;
    }
    true
}

/// A settled session has its roles adopted.
pub proof fn lemma_settled_means_adopted(peers: Seq<PeerView>, host_tick: u64)
    requires
        are_settled(peers, host_tick),
    ensures
        have_roles(peers.map_values(|peer: PeerView| peer.role)),
{
    let roles = peers.map_values(|peer: PeerView| peer.role);
    assert forall|k: int| 0 <= k < roles.len() implies #[trigger] roles[k] != Role::Solo by {
        assert(is_settled(peers[k], host_tick));
    }
}

// ---- long frames -----------------------------------------------------------------------------

/// One frame that is `ticks` ticks long on every peer.
pub struct LongFrame {
    /// How long each peer's frame is made, in nanoseconds.
    pub length: u128,
    /// What each peer's is put back to behind it.
    pub restore: Vec<FrameLength>,
}

impl TickedNetwork {
    /// One frame that is `ticks` ticks long on every peer, then back to what `lengths` says each
    /// had.
    ///
    /// A long frame is what makes a client fall behind, and the recovery from it is a path that
    /// only runs if a test can produce one.
    pub fn step_frame_with_ticks(lengths: &Vec<FrameLength>, ticks: u32) -> (plan: LongFrame)
        ensures
            plan.length == TICK * ticks,
            plan.restore@ == lengths@,
    {
        let mut restore: Vec<FrameLength> = Vec::new();
        let mut index: usize = 0;
        while index < lengths.len()
            invariant
                index <= lengths@.len(),
                restore@ == lengths@.take(index as int),
            decreases lengths@.len() - index,
        {
            restore.push(lengths[index]);
            index = index + 1;
            assert(restore@ =~= lengths@.take(index as int));
        }
        assert(restore@ =~= lengths@);
        let tick: u128 = TICK as u128;
        assert(tick * ticks <= 15_625_000 * 0xffff_ffff) by (nonlinear_arith)
            requires
                tick == 15_625_000,
                ticks <= 0xffff_ffff,
        ;
        LongFrame { length: tick * (ticks as u128), restore }
    }
}

// ---- cadence ---------------------------------------------------------------------------------

/// How many times a peer runs in the `count` frames from `from` on.
pub open spec fn updates_over(cadence: Seq<Cadence>, peer: PeerId, from: int, count: nat) -> int
    decreases count,
{
    if count == 0 {
        0
    } else {
        updates_over(cadence, peer, from, (count - 1) as nat) + updates_in(
            cadence,
            peer,
            (from + count - 1) as u64,
        )
    }
}

proof fn lemma_runs_in_the_window(
    cadence: Seq<Cadence>,
    peer: PeerId,
    from: int,
    count: nat,
    every: int,
    times: int,
)
    requires
        0 <= from,
        from + count <= u64::MAX,
        count <= every,
        every >= 1,
        forall|frame: u64|
            #[trigger] updates_in(cadence, peer, frame) == (if frame as int % every == 0 {
                times
            } else {
                0
            }),
    ensures
        updates_over(cadence, peer, from, count) == (if count > 0 && (from % every == 0 || every
            - from % every < count) {
            times
        } else {
            0
        }),
    decreases count,
{
    if count > 0 {
        let last = from + count - 1;
        lemma_runs_in_the_window(cadence, peer, from, (count - 1) as nat, every, times);
        let start = from % every;
        assert(from == every * (from / every) + start && 0 <= start < every) by (nonlinear_arith)
            requires
                start == from % every,
                every >= 1,
        ;
        let offset = start + count - 1;
        assert(last == every * (from / every) + offset);
        if offset < every {
            assert(last == (from / every) * every + offset) by (nonlinear_arith)
                requires
                    last == every * (from / every) + offset,
            ;
            vstd::arithmetic::div_mod::lemma_fundamental_div_mod_converse(
                last,
                every,
                from / every,
                offset,
            );
        } else {
            assert(last == (from / every + 1) * every + (offset - every)) by (nonlinear_arith)
                requires
                    last == every * (from / every) + offset,
            ;
            vstd::arithmetic::div_mod::lemma_fundamental_div_mod_converse(
                last,
                every,
                from / every + 1,
                offset - every,
            );
        }
        assert(updates_in(cadence, peer, last as u64) == (if last % every == 0 {
            times
        } else {
            0
        }));
    }
}

/// A slow or fast peer keeps the network's time: in every stretch of as many frames as its cadence
/// says it runs exactly as often as its cadence says, wherever the stretch begins.
pub proof fn lemma_cadence_keeps_time(net: NetworkModel, at: int, from: int)
    requires
        is_network(net),
        0 <= at < net.cadence.len(),
        0 <= from,
        from + net.cadence[at].every <= u64::MAX,
    ensures
        updates_over(
            net.cadence,
            net.cadence[at].peer,
            from,
            net.cadence[at].every as nat,
        ) == net.cadence[at].times,
{
    let peer = net.cadence[at].peer;
    let every = net.cadence[at].every as int;
    let times = net.cadence[at].times as int;
    lemma_cadence_place(net, at, 0);
    assert forall|frame: u64| #[trigger]
        updates_in(net.cadence, peer, frame) == (if frame as int % every == 0 {
            times
        } else {
            0
        }) by {}
    lemma_runs_in_the_window(net.cadence, peer, from, every as nat, every, times);
    assert(0 <= from % every < every) by (nonlinear_arith)
        requires
            every >= 1,
    ;
}

proof fn lemma_cadence_place(net: NetworkModel, at: int, from: int)
    requires
        is_network(net),
        0 <= from <= at < net.cadence.len(),
    ensures
        cadence_place(net.cadence, net.cadence[at].peer, from) == at,
    decreases at - from,
{
    if from < at {
        assert(net.cadence[from].peer != net.cadence[at].peer);
        lemma_cadence_place(net, at, from + 1);
    }
}

/// A peer without a cadence runs once a frame.
pub proof fn lemma_plain_peer_runs_once(cadence: Seq<Cadence>, peer: PeerId, frame: u64)
    requires
        forall|k: int| 0 <= k < cadence.len() ==> (#[trigger] cadence[k]).peer != peer,
    ensures
        updates_in(cadence, peer, frame) == 1,
{
    lemma_no_cadence(cadence, peer, 0);
}

proof fn lemma_no_cadence(cadence: Seq<Cadence>, peer: PeerId, from: int)
    requires
        0 <= from <= cadence.len(),
        forall|k: int| 0 <= k < cadence.len() ==> (#[trigger] cadence[k]).peer != peer,
    ensures
        cadence_place(cadence, peer, from) == cadence.len(),
    decreases cadence.len() - from,
{
    if from < cadence.len() {
        assert(cadence[from].peer != peer);
        lemma_no_cadence(cadence, peer, from + 1);
    }
}

// ---- laws ------------------------------------------------------------------------------------

/// A session is settled exactly when everyone in it is a host, or a client that has applied a
/// snapshot and is at a later tick than the host, by however much; a wait for it then ends, saying
/// that it held.
pub proof fn lemma_settled_is_every_client_leading(
    max_frames: usize,
    frames: usize,
    host_tick: u64,
    peers: Seq<PeerView>,
)
    requires
        frames <= max_frames,
    ensures
        wait_step(max_frames, frames, are_settled(peers, host_tick)) == Some(true) <==> forall|k: int|
            0 <= k < peers.len() ==> (#[trigger] peers[k]).role == Role::Host || (peers[k].role
                == Role::Client && peers[k].applied is Some && peers[k].tick > host_tick),
{
    if are_settled(peers, host_tick) {
        assert forall|k: int| 0 <= k < peers.len() implies (#[trigger] peers[k]).role == Role::Host
            || (peers[k].role == Role::Client && peers[k].applied is Some && peers[k].tick
            > host_tick) by {
            assert(is_settled(peers[k], host_tick));
        }
    }
}

/// A client that is settled stays so when it gets further ahead of its host, and whatever snapshot
/// it was that it applied.
pub proof fn lemma_greater_lead_settles_too(peer: PeerView, host_tick: u64, tick: u64, applied: u64)
    requires
        is_settled(peer, host_tick),
        tick >= peer.tick,
    ensures
        is_settled(PeerView { tick, applied: Some(applied), ..peer }, host_tick),
{
}

/// A wait for a tick ends at the first frame that finds the peer there or past it, and a wait for
/// roles at the first that finds everyone a host or a client.
pub proof fn lemma_what_waits_wait_for(
    max_frames: usize,
    frames: usize,
    tick: u64,
    target: u64,
    roles: Seq<Role>,
)
    requires
        frames <= max_frames,
    ensures
        tick < target ==> wait_step(max_frames, frames, tick >= target) == (if frames == max_frames {
            Some(false)
        } else {
            None
        }),
        tick >= target ==> wait_step(max_frames, frames, tick >= target) == Some(true),
        wait_step(max_frames, frames, have_roles(roles)) == Some(true) <==> forall|k: int|
            0 <= k < roles.len() ==> #[trigger] roles[k] == Role::Host || roles[k] == Role::Client,
{
}

/// A clock is as far ahead of itself as not at all, each tick that it goes on takes it one tick
/// further ahead, and each that the other goes on one tick back.
pub proof fn lemma_ticks_ahead_add_up(tick: u64, other: u64, on: u64)
    requires
        tick + on <= u64::MAX,
        other + on <= u64::MAX,
    ensures
        ticks_ahead(tick, tick) == 0,
        ticks_ahead((tick + on) as u64, other) == ticks_ahead(tick, other) + on,
        ticks_ahead(tick, (other + on) as u64) == ticks_ahead(tick, other) - on,
{
}

/// A network of one more client is the network of fewer with a client added: the host comes first,
/// and the newest client has the highest uuid.
pub proof fn lemma_seats_are_added_one_by_one(clients: nat)
    requires
        HOST_UUID + 1 + clients <= u128::MAX,
    ensures
        seats(0) == seq![PeerState { uuid: HOST_UUID, attachment: Attachment::Connected }],
        seats(clients + 1) == seats(clients).push(
            PeerState {
                uuid: (HOST_UUID + 1 + clients) as u128,
                attachment: Attachment::Connected,
            },
        ),
{
    assert(seats(0) =~= seq![PeerState { uuid: HOST_UUID, attachment: Attachment::Connected }]);
    assert(seats(clients + 1) =~= seats(clients).push(
        PeerState { uuid: (HOST_UUID + 1 + clients) as u128, attachment: Attachment::Connected },
    ));
}

/// When one peer comes or goes, it keeps its uuid and nothing else on the network changes; and a
/// peer that goes and comes back leaves the network as it was when it was connected.
pub proof fn lemma_coming_and_going_touches_one_peer(
    net: NetworkModel,
    peer: PeerId,
    attachment: Attachment,
    back: Attachment,
)
    requires
        peer.0 < net.roster.len(),
    ensures
        ({
            let next = with_attachment(net, peer, attachment);
            &&& next == (NetworkModel { roster: next.roster, ..net })
            &&& next.roster.len() == net.roster.len()
            &&& next.roster[peer.0 as int].uuid == net.roster[peer.0 as int].uuid
            &&& next.roster[peer.0 as int].attachment == attachment
            &&& forall|k: int|
                0 <= k < net.roster.len() && k != peer.0 ==> #[trigger] next.roster[k]
                    == net.roster[k]
            &&& back == net.roster[peer.0 as int].attachment ==> with_attachment(next, peer, back)
                == net
        }),
{
    let next = with_attachment(net, peer, attachment);
    if back == net.roster[peer.0 as int].attachment {
        assert(with_attachment(next, peer, back).roster =~= net.roster);
    }
}

/// Whether peers come in peer order, none of them twice.
pub open spec fn in_peer_order(list: Seq<PeerId>) -> bool {
    forall|j: int, k: int|
        0 <= j < k < list.len() ==> (#[trigger] list[j]).0 < (#[trigger] list[k]).0
}

proof fn lemma_filter_keeps_peer_order(list: Seq<PeerId>, keep: spec_fn(PeerId) -> bool)
    requires
        in_peer_order(list),
    ensures
        in_peer_order(list.filter(keep)),
        forall|k: int|
            0 <= k < list.filter(keep).len() ==> list.contains(#[trigger] list.filter(keep)[k]),
    decreases list.len(),
{
    reveal(Seq::filter);
    if list.len() > 0 {
        let front = list.drop_last();
        lemma_filter_keeps_peer_order(front, keep);
        let kept = list.filter(keep);
        let fewer = front.filter(keep);
        assert forall|k: int| 0 <= k < kept.len() implies list.contains(#[trigger] kept[k]) by {
            if k < fewer.len() {
                assert(kept[k] == fewer[k]);
                let i = choose|i: int| 0 <= i < front.len() && front[i] == fewer[k];
                assert(list[i] == kept[k]);
            } else {
                assert(list[list.len() - 1] == kept[k]);
            }
        }
        assert forall|j: int, k: int| 0 <= j < k < kept.len() implies (#[trigger] kept[j]).0 < (
        #[trigger] kept[k]).0 by {
            assert(kept[j] == fewer[j]);
            if k < fewer.len() {
                assert(kept[k] == fewer[k]);
            } else {
                let i = choose|i: int| 0 <= i < front.len() && front[i] == fewer[j];
                assert(list[i] == fewer[j]);
                assert(list[list.len() - 1] == kept[k]);
            }
        }
    }
}

proof fn lemma_filter_of_peers(net: NetworkModel, keep: spec_fn(PeerId) -> bool, peer: PeerId)
    requires
        net.roster.len() <= usize::MAX,
    ensures
        in_peer_order(peer_ids(net).filter(keep)),
        peer_ids(net).filter(keep).contains(peer) <==> peer.0 < net.roster.len() && keep(peer),
{
    let all = peer_ids(net);
    lemma_filter_keeps_peer_order(all, keep);
    if peer.0 < net.roster.len() {
        assert(all[peer.0 as int] == peer);
        assert(all.contains(peer));
    }
    if all.filter(keep).contains(peer) {
        let k = choose|k: int| 0 <= k < all.filter(keep).len() && all.filter(keep)[k] == peer;
        all.lemma_filter_pred(keep, k);
        assert(all.contains(peer));
    }
    if all.contains(peer) && keep(peer) {
        let k = choose|k: int| 0 <= k < all.len() && all[k] == peer;
        all.lemma_filter_contains(keep, k);
    }
}

/// Every peer of the network is listed once, in peer order: among the clients exactly when it is
/// not the host, and among the attached exactly when it is connected or its join is pending. While
/// a peer is frozen exactly the others run.
pub proof fn lemma_everyone_is_listed_once(net: NetworkModel, peer: PeerId, frozen: PeerId)
    requires
        net.roster.len() <= usize::MAX,
    ensures
        in_peer_order(peer_ids(net)),
        in_peer_order(client_ids(net)),
        in_peer_order(attached_ids(net)),
        peer_ids(net).contains(peer) <==> peer.0 < net.roster.len(),
        client_ids(net).contains(peer) <==> peer.0 < net.roster.len() && peer.0 != net.host.0,
        attached_ids(net).contains(peer) <==> peer.0 < net.roster.len() && (
        net.roster[peer.0 as int].attachment == Attachment::Connected
            || net.roster[peer.0 as int].attachment == Attachment::Pending),
        peer_ids(net).filter(|other: PeerId| other != frozen).contains(peer) <==> peer.0
            < net.roster.len() && peer.0 != frozen.0,
{
    lemma_filter_of_peers(net, |other: PeerId| other != net.host, peer);
    lemma_filter_of_peers(net, |other: PeerId| other != frozen, peer);
    lemma_filter_of_peers(
        net,
        |other: PeerId| is_attached(net.roster[other.0 as int]),
        peer,
    );
    if peer.0 < net.roster.len() {
        assert(peer_ids(net)[peer.0 as int] == peer);
    }
}

/// Where uuids are distinct, the first peer that owns a uuid is the only one.
pub proof fn lemma_uuid_finds_its_peer(net: NetworkModel, found: PeerId, peer: PeerId)
    requires
        are_uuids_distinct(net),
        peer.0 < net.roster.len(),
        is_owner(net, found, net.roster[peer.0 as int].uuid),
    ensures
        found == peer,
        owns_any(net, net.roster[peer.0 as int].uuid),
{
    if found.0 < peer.0 {
        assert(net.roster[found.0 as int].uuid != net.roster[peer.0 as int].uuid);
    }
    if peer.0 < found.0 {
        assert(net.roster[peer.0 as int].uuid != net.roster[found.0 as int].uuid);
    }
}

/// A peer with a cadence runs as often as it says in the frames that are whole multiples of its
/// stretch, counted from the first, and in no other.
pub proof fn lemma_cadence_sets_the_frames(net: NetworkModel, at: int, whole: int, over: int)
    requires
        is_network(net),
        0 <= at < net.cadence.len(),
        0 <= whole,
        0 <= over < net.cadence[at].every,
        whole * net.cadence[at].every + over <= u64::MAX,
    ensures
        updates_in(
            net.cadence,
            net.cadence[at].peer,
            (whole * net.cadence[at].every + over) as u64,
        ) == (if over == 0 {
            net.cadence[at].times
        } else {
            0
        }),
{
    let every = net.cadence[at].every as int;
    lemma_cadence_place(net, at, 0);
    assert(0 <= whole * every) by (nonlinear_arith)
        requires
            0 <= whole,
            every >= 1,
    ;
    vstd::arithmetic::div_mod::lemma_fundamental_div_mod_converse(
        whole * every + over,
        every,
        whole,
        over,
    );
}

proof fn lemma_place_of_others(
    cadence: Seq<Cadence>,
    peer: PeerId,
    other: PeerId,
    end: int,
)
    requires
        other != peer,
        0 <= end <= cadence.len(),
    ensures
        ({
            let kept = cadence.take(end).filter(|one: Cadence| one.peer != peer);
            let place = cadence_place(kept, other, 0);
            let was = cadence_place(cadence.take(end), other, 0);
            &&& 0 <= place <= kept.len()
            &&& 0 <= was <= end
            &&& place < kept.len() <==> was < end
            &&& place < kept.len() ==> kept[place] == cadence[was] && kept[place].peer == other
        }),
    decreases end,
{
    reveal(Seq::filter);
    if end > 0 {
        let upto = cadence.take(end);
        lemma_place_of_others(cadence, peer, other, end - 1);
        assert(upto.drop_last() =~= cadence.take(end - 1));
        let keep = |one: Cadence| one.peer != peer;
        let fewer = cadence.take(end - 1).filter(keep);
        lemma_place_behind(cadence.take(end - 1), upto.last(), other, 0);
        assert(cadence.take(end - 1).push(upto.last()) =~= upto);
        lemma_place_behind(fewer, upto.last(), other, 0);
    }
}

proof fn lemma_place_behind(cadence: Seq<Cadence>, last: Cadence, peer: PeerId, from: int)
    requires
        0 <= from <= cadence.len(),
    ensures
        ({
            let place = cadence_place(cadence, peer, from);
            let next = cadence_place(cadence.push(last), peer, from);
            &&& from <= place <= cadence.len()
            &&& place < cadence.len() ==> next == place && cadence[place].peer == peer
            &&& place == cadence.len() ==> next == (if last.peer == peer {
                place
            } else {
                place + 1
            })
        }),
    decreases cadence.len() - from,
{
    if from < cadence.len() {
        assert(cadence.push(last)[from] == cadence[from]);
        lemma_place_behind(cadence, last, peer, from + 1);
    } else {
        assert(cadence.push(last)[from] == last);
        assert(cadence_place(cadence.push(last), peer, from + 1) == from + 1);
    }
}

/// A peer that is given a rate runs at it from now on, whatever rate it had, and nobody else's rate
/// changes; one that is put back runs once in every frame.
pub proof fn lemma_rate_is_that_of_one_peer(
    cadence: Seq<Cadence>,
    peer: PeerId,
    every: u32,
    times: u32,
    other: PeerId,
    frame: u64,
)
    requires
        every >= 1,
        times >= 1,
    ensures
        ({
            let next = with_cadence(cadence, peer, every, times);
            &&& updates_in(next, peer, frame) == (if frame as int % every as int == 0 {
                times
            } else {
                0
            })
            &&& other != peer ==> updates_in(next, other, frame) == updates_in(
                cadence,
                other,
                frame,
            )
        }),
{
    let next = with_cadence(cadence, peer, every, times);
    let kept = cadence.filter(|one: Cadence| one.peer != peer);
    let own = Cadence { peer, every, times };
    assert(cadence.take(cadence.len() as int) =~= cadence);
    assert forall|k: int| 0 <= k < kept.len() implies (#[trigger] kept[k]).peer != peer by {
        cadence.lemma_filter_pred(|one: Cadence| one.peer != peer, k);
    }
    lemma_no_cadence(kept, peer, 0);
    lemma_place_behind(kept, own, peer, 0);
    if every == 1 && times == 1 {
        assert(next =~= kept);
        assert(frame as int % 1 == 0);
    } else {
        assert(next =~= kept.push(own));
    }
    if other != peer {
        lemma_place_of_others(cadence, peer, other, cadence.len() as int);
        lemma_place_behind(kept, own, other, 0);
    }
}

} // verus!
