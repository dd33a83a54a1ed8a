//! Verified logic for networked sessions of a ticked simulation and for the harness that tests
//! them.
//!
//! The session: [`handshake`] and [`join`] decide whether two peers speak the same language,
//! [`session`] maps a lobby onto roles, [`bridge`] moves snapshots and inputs, [`local_session`]
//! runs several peers from one shell and [`overlay`] shows the counters.
//!
//! The harness: [`network`], [`peer`], [`input`] and [`packets`] drive peers and read the wire,
//! [`agreement`], [`replay_check`], [`golden`], [`measure`], [`wire`] and [`log`] say things about
//! them, [`source_guard`] keeps the frame out of the tick, [`fault`] breaks things on purpose and
//! [`fixtures`] is a game small enough to trust.

pub mod agreement;
pub mod bridge;
pub mod date;
pub mod fault;
pub mod fixtures;
pub mod golden;
pub mod handshake;
pub mod input;
pub mod input_queue;
pub mod join;
pub mod local_session;
pub mod log;
pub mod measure;
pub mod network;
pub mod number;
pub mod numbers;
pub mod overlay;
pub mod packets;
pub mod packing;
pub mod path;
pub mod peer;
pub mod replay_check;
pub mod session;
pub mod slots;
pub mod source_code;
pub mod source_guard;
pub mod text;
pub mod wire;
