//! Bandwidth-based transfer delays.
use crate::config::NetworkConfig;
use vstd::prelude::*;

verus! {

const BYTES_TO_BITS: u64 = 8;
/// Applied as `bps / BANDWIDTH_BPS_PER_MS_UNIT` when turning link rate into a per-ms throughput term.
const BANDWIDTH_BPS_PER_MS_UNIT: u64 = 1000;
const BANDWIDTH_MIN_BPS: u64 = 1;
const BANDWIDTH_MIN_BITS_PER_MS: u64 = 1;

/// Link rate from region `from` to region `to`: the lower of the sender's upload and the
/// receiver's download rate.
pub open spec fn spec_bandwidth(net: &NetworkConfig, from: int, to: int) -> u64 {
    let up = net.topology.regions@[from].upload_bps;
    let down = net.topology.regions@[to].download_bps;
    if up <= down { up } else { down }
}

/// Transmission part of a block transfer (ms), before the processing time is added:
/// `min(size_bytes * 8, u64::MAX) / max(max(bps, 1) / 1000, 1)`.
pub open spec fn spec_transfer_body(net: &NetworkConfig, from: int, to: int, size_bytes: u64) -> int {
    let bw = spec_bandwidth(net, from, to);
    let bps: int = if bw >= 1 { bw as int } else { 1 };
    let bits: int = if size_bytes * 8 <= u64::MAX { size_bytes * 8 } else { u64::MAX as int };
    let per_ms: int = bps / 1000;
    bits / (if per_ms >= 1 { per_ms } else { 1 })
}

pub fn bandwidth_bps(net: &NetworkConfig, from: usize, to: usize) -> (r: u64)
    requires
        from < net.num_regions(),
        to < net.num_regions(),
    ensures
        r == spec_bandwidth(net, from as int, to as int),
{
    let up = net.topology.regions[from].upload_bps;
    let down = net.topology.regions[to].download_bps;
    if up <= down { up } else { down }
}

/// Transfer time in ms: `size_bytes * 8 / (bps / 1000) + processing_ms`.
pub fn block_transfer_ms(
    net: &NetworkConfig,
    from_region: usize,
    to_region: usize,
    size_bytes: u64,
    processing_ms: u64,
) -> (r: u64)
    requires
        from_region < net.num_regions(),
        to_region < net.num_regions(),
        spec_transfer_body(net, from_region as int, to_region as int, size_bytes) + processing_ms
            <= u64::MAX,
    ensures
        r == spec_transfer_body(net, from_region as int, to_region as int, size_bytes)
            + processing_ms,
{
    let bw = bandwidth_bps(net, from_region, to_region);
    let bps = if bw >= BANDWIDTH_MIN_BPS { bw } else { BANDWIDTH_MIN_BPS };
    let bits = if size_bytes <= u64::MAX / BYTES_TO_BITS { size_bytes * BYTES_TO_BITS } else { u64::MAX };
    let bits_per_ms = bps / BANDWIDTH_BPS_PER_MS_UNIT;
    let divisor = if bits_per_ms >= BANDWIDTH_MIN_BITS_PER_MS { bits_per_ms } else { BANDWIDTH_MIN_BITS_PER_MS };
    bits / divisor + processing_ms
}

/// Whether [`block_transfer_ms`] stays within `u64` for these arguments.
pub fn block_transfer_fits(
    net: &NetworkConfig,
    from_region: usize,
    to_region: usize,
    size_bytes: u64,
    processing_ms: u64,
) -> (ok: bool)
    requires
        from_region < net.num_regions(),
        to_region < net.num_regions(),
    ensures
        ok == (spec_transfer_body(net, from_region as int, to_region as int, size_bytes) + processing_ms
            <= u64::MAX),
{
    let bw = bandwidth_bps(net, from_region, to_region);
    let bps = if bw >= BANDWIDTH_MIN_BPS { bw } else { BANDWIDTH_MIN_BPS };
    let bits = if size_bytes <= u64::MAX / BYTES_TO_BITS { size_bytes * BYTES_TO_BITS } else { u64::MAX };
    let bits_per_ms = bps / BANDWIDTH_BPS_PER_MS_UNIT;
    let divisor = if bits_per_ms >= BANDWIDTH_MIN_BITS_PER_MS { bits_per_ms } else { BANDWIDTH_MIN_BITS_PER_MS };
    bits / divisor <= u64::MAX - processing_ms
}

} // verus!
