use simblock::file_config::SimulationPartial;
use simblock::{FileConfig, NetworkPreset, SimulationConfig};

/// Reads the settings file format (a `network` string and a `[simulation]` table) by hand.
fn parse_file_config(raw: &str) -> FileConfig {
    let v: toml::Value = toml::from_str(raw).unwrap();
    let network = match v.get("network").and_then(|n| n.as_str()) {
        None | Some("bitcoin2019") => NetworkPreset::Bitcoin2019,
        Some("bitcoin2015") => NetworkPreset::Bitcoin2015,
        Some("litecoin") => NetworkPreset::Litecoin,
        Some("dogecoin") => NetworkPreset::Dogecoin,
        Some(other) => panic!("unknown network {other}"),
    };
    let sim = v.get("simulation");
    let int = |k: &str| sim.and_then(|s| s.get(k)).and_then(|x| x.as_integer());
    FileConfig {
        network,
        simulation: SimulationPartial {
            num_nodes: int("num_nodes").map(|x| x as u32),
            target_block_interval_ms: int("target_block_interval_ms").map(|x| x as u64),
            average_mining_power: int("average_mining_power").map(|x| x as u64),
            stdev_mining_power: int("stdev_mining_power").map(|x| x as u64),
            end_block_height: int("end_block_height").map(|x| x as u32),
            block_size_bytes: int("block_size_bytes").map(|x| x as u64),
            compact_block_size_bytes: int("compact_block_size_bytes").map(|x| x as u64),
            rng_seed: int("rng_seed").map(|x| x as u64),
            message_overhead_ms: int("message_overhead_ms").map(|x| x as u64),
            processing_time_ms: int("processing_time_ms").map(|x| x as u64),
        },
    }
}

#[test]
fn parses_toml_network_and_simulation() {
    let raw = r#"
network = "litecoin"

[simulation]
num_nodes = 12
end_block_height = 5
rng_seed = 99
"#;
    let f = parse_file_config(raw);
    assert_eq!(f.network, NetworkPreset::Litecoin);
    let (sim, net) = f.build(SimulationConfig::default());
    assert_eq!(sim.num_nodes, 12);
    assert_eq!(sim.end_block_height, 5);
    assert_eq!(sim.rng_seed, 99);
    assert_eq!(net.topology.regions.len(), 6);
}

#[test]
fn merge_keeps_omitted_fields() {
    let base = SimulationConfig::default();
    assert_eq!(SimulationPartial::default().merge(base), base);
    let p = SimulationPartial { block_size_bytes: Some(1), processing_time_ms: Some(0), ..SimulationPartial::default() };
    let m = p.merge(base);
    assert_eq!(m.block_size_bytes, 1);
    assert_eq!(m.processing_time_ms, 0);
    assert_eq!(m.num_nodes, 300);
    assert_eq!(m.target_block_interval_ms, 600_000);
    assert_eq!(p.merge(m), m);
}

#[test]
fn default_and_tiny_configs() {
    let d = SimulationConfig::default();
    assert_eq!(d.num_nodes, 300);
    assert_eq!(d.end_block_height, 10);
    assert_eq!(d.rng_seed, 10);
    let t = SimulationConfig::tiny();
    assert_eq!(t.num_nodes, 8);
    assert_eq!(t.end_block_height, 4);
    assert_eq!(t.rng_seed, 42);
    assert_eq!(NetworkPreset::default(), NetworkPreset::Bitcoin2019);
    let f = FileConfig { network: NetworkPreset::Dogecoin, simulation: SimulationPartial::default() };
    let (s, _) = f.build(t);
    assert_eq!(s, t);
}
