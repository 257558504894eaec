//! Packet framing and traffic counters for a UDP packet source and sink.
//!
//! `wire` frames and reads packets: an eight-byte big-endian sequence number
//! followed by a payload. `stats` counts packets and bytes, and `sequence`
//! follows received sequence numbers to count missing and out-of-order packets.

use vstd::prelude::*;

mod ranges;
pub mod sequence;
pub mod settings;
pub mod stats;
pub mod wire;

pub use sequence::SequenceStatsSnapshot;
pub use stats::{
    PacketStats, PacketStatsTotals, ReceiverPacketStats, ReceiverPacketStatsTotals,
    ReceiverStatsInterval, StatsInterval,
};
pub use settings::{RunSettingsError, check_run_settings};
pub use wire::{Packet, PacketError, PacketHeader, PacketMut, write_payload_prefix};

verus! {

} // verus!
