use hyper_lib::cli::{CacheAlgo, Cli, CliStartMode, LogLevel};
use hyper_lib::node::GetaddrCacheAlgorithm;
use hyper_lib::StartMode;

fn cli(start: CliStartMode, burn_in: Option<u64>) -> Cli {
    Cli {
        onion: 1,
        clearnet: 2,
        dual_stack: 3,
        reachable_clearnet_pct: 15,
        reachable_onion_pct: 50,
        outbounds: 8,
        days: 60,
        joins_per_day: 100,
        leaves_per_day: 90,
        start,
        burn_in,
        seed_sample_pct: 1,
        cache_algo: CacheAlgo::NetworkBased,
        output_file: None,
        log_level: LogLevel::Info,
        seed: Some(4),
        interactive: false,
    }
}

#[test]
fn cold_start_defaults_to_thirty_day_burn_in() {
    let c = cli(CliStartMode::Cold, None).into_config();
    assert_eq!(c.burn_in_days, 30);
    assert_eq!(c.start_mode, StartMode::Cold);
}

#[test]
fn other_starts_default_to_no_burn_in() {
    assert_eq!(cli(CliStartMode::Warm, None).into_config().burn_in_days, 0);
    assert_eq!(cli(CliStartMode::Peers, None).into_config().burn_in_days, 0);
    assert_eq!(cli(CliStartMode::Dns, None).into_config().burn_in_days, 0);
}

#[test]
fn explicit_burn_in_wins() {
    assert_eq!(cli(CliStartMode::Cold, Some(5)).into_config().burn_in_days, 5);
    assert_eq!(cli(CliStartMode::Warm, Some(7)).into_config().burn_in_days, 7);
}

#[test]
fn options_carry_over() {
    let c = cli(CliStartMode::Dns, None).into_config();
    assert_eq!((c.onion, c.clearnet, c.dual_stack), (1, 2, 3));
    assert_eq!((c.reachable_clearnet_pct, c.reachable_onion_pct), (15, 50));
    assert_eq!((c.outbounds, c.days, c.joins_per_day, c.leaves_per_day), (8, 60, 100, 90));
    assert_eq!(c.dns_sample_pct, 1);
    assert_eq!(c.start_mode, StartMode::Dns);
    assert_eq!(c.cache_algo, GetaddrCacheAlgorithm::NetworkBased);
}

#[test]
fn cache_algo_conversion() {
    assert_eq!(GetaddrCacheAlgorithm::from(CacheAlgo::Current), GetaddrCacheAlgorithm::Current);
    assert_eq!(GetaddrCacheAlgorithm::from(CacheAlgo::FixedOffset), GetaddrCacheAlgorithm::FixedOffset);
    assert_eq!(GetaddrCacheAlgorithm::from(CacheAlgo::NetworkBased), GetaddrCacheAlgorithm::NetworkBased);
}
