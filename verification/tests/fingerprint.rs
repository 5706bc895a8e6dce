use hyper_lib::address::{AddressId, NetworkType};
use hyper_lib::fingerprint::{overlap_count, FingerprintAnalyzer};
use hyper_lib::node::AddrPayload;

fn p(id: u64, network: NetworkType, ts: u64) -> AddrPayload {
    AddrPayload { address: AddressId { id, network }, timestamp: ts }
}

#[test]
fn overlap_counts_shared_pairs() {
    let a = [(1u128, 5u64), (2, 5), (3, 7)];
    let b = [(1u128, 5u64), (3, 6), (3, 7), (9, 9)];
    assert_eq!(overlap_count(&a, &b), 2);
    assert_eq!(overlap_count(&b, &a), 2);
    assert_eq!(overlap_count(&a, &[]), 0);
    assert_eq!(overlap_count(&[], &b), 0);
}

#[test]
fn overlap_counts_with_multiplicity() {
    let a = [(1u128, 5u64), (1, 5)];
    let b = [(1u128, 5u64)];
    assert_eq!(overlap_count(&a, &b), 1);
    assert_eq!(overlap_count(&a, &a), 2);
}

#[test]
fn analyze_reports_nodes_with_both_caches() {
    let mut an = FingerprintAnalyzer::new();
    // Given out of order: recording sorts them, so the merge still finds every match.
    let clear = vec![p(3, NetworkType::Clearnet, 30), p(1, NetworkType::Clearnet, 10), p(2, NetworkType::Onion, 20)];
    let onion = vec![p(2, NetworkType::Onion, 20), p(1, NetworkType::Clearnet, 10), p(4, NetworkType::Onion, 1)];
    an.record(7, NetworkType::Clearnet, &clear);
    an.record(7, NetworkType::Onion, &onion);
    an.record(8, NetworkType::Clearnet, &clear);
    let r = an.analyze_counts();
    assert_eq!(r, vec![(7, 2, 3)]);
}

#[test]
fn analyze_on_nothing_is_empty() {
    let an = FingerprintAnalyzer::new();
    assert!(an.analyze_counts().is_empty());
}

#[test]
fn different_timestamps_do_not_match() {
    let mut an = FingerprintAnalyzer::new();
    an.record(1, NetworkType::Clearnet, &[p(1, NetworkType::Clearnet, 10)]);
    an.record(1, NetworkType::Onion, &[p(1, NetworkType::Clearnet, 11)]);
    assert_eq!(an.analyze_counts(), vec![(1, 0, 1)]);
}

#[test]
fn recording_ignores_the_order_of_a_cache_and_replaces_earlier_records() {
    let clear = vec![p(3, NetworkType::Clearnet, 30), p(1, NetworkType::Clearnet, 10), p(2, NetworkType::Onion, 20)];
    let clear_shuffled = vec![p(2, NetworkType::Onion, 20), p(3, NetworkType::Clearnet, 30), p(1, NetworkType::Clearnet, 10)];
    let onion = vec![p(2, NetworkType::Onion, 20), p(3, NetworkType::Clearnet, 30)];
    let mut first = FingerprintAnalyzer::new();
    first.record(5, NetworkType::Clearnet, &clear);
    first.record(5, NetworkType::Onion, &onion);
    let mut second = FingerprintAnalyzer::new();
    // An earlier record for the same node and network is replaced.
    second.record(5, NetworkType::Clearnet, &[p(9, NetworkType::Clearnet, 1)]);
    second.record(5, NetworkType::Onion, &onion);
    second.record(5, NetworkType::Clearnet, &clear_shuffled);
    assert_eq!(first.analyze_counts(), vec![(5, 2, 3)]);
    assert_eq!(second.analyze_counts(), first.analyze_counts());
}

#[test]
fn a_list_shares_every_pair_with_itself() {
    let a = [(1u128, 5u64), (2, 6), (2, 7)];
    assert_eq!(overlap_count(&a, &a), a.len());
}
