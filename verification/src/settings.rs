//! The settings a packet source or sink runs with.

use vstd::prelude::*;

verus! {

/// Why a source or sink cannot run with the settings it was given.
#[derive(Debug, Clone, Copy, PartialEq, Eq, Structural)]
pub enum RunSettingsError {
    /// Packets of this size cannot hold the header.
    PacketSizeTooSmall { packet_size: usize, minimum_size: usize },
    /// Statistics cannot be logged every zero seconds.
    ZeroStatsInterval,
}

/// Accepts a packet size that holds the header and a positive statistics interval;
/// the packet size is checked first.
pub fn check_run_settings(packet_size: usize, stats_interval_seconds: u64) -> (r: Result<
    (),
    RunSettingsError,
>)
    ensures
        packet_size < 8 ==> r == Err::<(), RunSettingsError>(
            RunSettingsError::PacketSizeTooSmall { packet_size, minimum_size: 8 },
        ),
        packet_size >= 8 && stats_interval_seconds == 0 ==> r == Err::<(), RunSettingsError>(
            RunSettingsError::ZeroStatsInterval,
        ),
        packet_size >= 8 && stats_interval_seconds > 0 ==> r is Ok,
{
    if packet_size < crate::wire::Packet::MINIMUM_SIZE {
        return Err(
            RunSettingsError::PacketSizeTooSmall {
                packet_size,
                minimum_size: crate::wire::Packet::MINIMUM_SIZE,
            },
        );
    }
    if stats_interval_seconds == 0 {
        return Err(RunSettingsError::ZeroStatsInterval);
    }
    Ok(())
}

} // verus!
