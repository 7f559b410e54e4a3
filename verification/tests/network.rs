use simblock::network::{bandwidth_bps, block_transfer_fits, block_transfer_ms};
use simblock::{NetworkConfig, NetworkPreset, RegionSpec, RegionTopology};

fn test_net() -> NetworkConfig {
    NetworkConfig {
        topology: RegionTopology {
            regions: vec![
                RegionSpec { name: "R0", download_bps: 10_000_000, upload_bps: 8_000_000 },
                RegionSpec { name: "R1", download_bps: 12_000_000, upload_bps: 6_000_000 },
            ],
            latency_ms: vec![vec![50, 100], vec![100, 50]],
        },
    }
}

#[test]
fn bandwidth_bps_is_min_of_upload_and_download() {
    let net = test_net();
    assert_eq!(bandwidth_bps(&net, 0, 1), 8_000_000);
    assert_eq!(bandwidth_bps(&net, 1, 0), 6_000_000);
}

#[test]
fn block_transfer_ms_includes_processing() {
    let net = test_net();
    let t = block_transfer_ms(&net, 0, 1, 6_000_000, 5);
    assert!(t >= 5);
}

#[test]
fn block_transfer_ms_exact_value() {
    let net = test_net();
    // 6_000_000 bytes = 48_000_000 bits over 8_000 bits/ms = 6000 ms, plus 5 ms processing.
    assert_eq!(block_transfer_ms(&net, 0, 1, 6_000_000, 5), 6005);
    // 1_000 bytes from region 1 to 0: 8_000 bits over 6_000 bits/ms = 1 ms (integer division).
    assert_eq!(block_transfer_ms(&net, 1, 0, 1_000, 0), 1);
}

#[test]
fn block_transfer_on_a_slow_link_and_overflow_check() {
    let net = NetworkConfig {
        topology: RegionTopology {
            regions: vec![RegionSpec { name: "slow", download_bps: 500, upload_bps: 0 }],
            latency_ms: vec![vec![1]],
        },
    };
    // Rate 0 counts as 1 bit/ms: 10 bytes take 80 ms.
    assert_eq!(block_transfer_ms(&net, 0, 0, 10, 0), 80);
    assert!(block_transfer_fits(&net, 0, 0, 10, 0));
    // Bits saturate at u64::MAX; adding any processing time overflows.
    assert!(!block_transfer_fits(&net, 0, 0, u64::MAX, 1));
}

#[test]
fn presets_have_six_regions_with_square_latency() {
    for p in [NetworkPreset::Bitcoin2019, NetworkPreset::Bitcoin2015, NetworkPreset::Litecoin, NetworkPreset::Dogecoin] {
        let net = p.to_network_config();
        assert_eq!(net.topology.regions.len(), 6);
        assert_eq!(net.topology.latency_ms.len(), 6);
        assert!(net.topology.latency_ms.iter().all(|row| row.len() == 6));
    }
    assert_eq!(NetworkPreset::Bitcoin2015.to_network_config().topology.latency_ms[0][1], 119);
    assert_eq!(NetworkConfig::default().topology.latency_ms[0][1], 124);
    assert_eq!(NetworkConfig::bitcoin_2015().topology.regions[0].upload_bps, 4_700_000);
}

#[test]
fn presets_name_their_regions_in_order() {
    let names = ["NORTH_AMERICA", "EUROPE", "SOUTH_AMERICA", "ASIA_PACIFIC", "JAPAN", "AUSTRALIA"];
    for p in [NetworkPreset::Bitcoin2019, NetworkPreset::Bitcoin2015, NetworkPreset::Litecoin, NetworkPreset::Dogecoin] {
        let net = p.to_network_config();
        let got: Vec<&str> = net.topology.regions.iter().map(|r| r.name).collect();
        assert_eq!(got, names);
    }
}
