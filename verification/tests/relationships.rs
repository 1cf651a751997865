use bgp_analyzer::bgp_extract::{AsPathSegment, BgpPrefix, BgpUpdate};
use bgp_analyzer::parallel_processor::{CountError, ParallelProcessor};
use bgp_analyzer::topology::AsTopology;
use bgp_analyzer::valley_free::{AsRelationship, LeakType, ValleyFreeChecker};

use AsRelationship::{CustomerToProvider as C2P, PeerToPeer as P2P, ProviderToCustomer as P2C};

fn update(prefix: Option<&str>, path: &[u32]) -> BgpUpdate {
    BgpUpdate {
        announced_prefixes: prefix.iter().map(|p| BgpPrefix::new(p.to_string(), 8)).collect(),
        withdrawn_prefixes: Vec::new(),
        as_path: vec![AsPathSegment { segment_type: 1, asns: path.to_vec() }],
        origin_as: path.last().copied(),
        next_hop: None,
        source_as: None,
        peer_as: None,
        timestamp: 0,
    }
}

/// AS1 is the provider of AS2 and AS3, which peer; AS2 serves AS10 and AS3
/// serves AS11.
fn sample() -> ParallelProcessor {
    let p = ParallelProcessor::new();
    for (k, c) in [((1, 2), 20u64), ((1, 3), 20), ((2, 3), 2), ((2, 10), 1), ((3, 11), 1)] {
        p.as_link_counts.insert(k, c);
    }
    p
}

fn checker(p: &ParallelProcessor) -> ValleyFreeChecker {
    let t = AsTopology::build_from_processor(p).unwrap();
    ValleyFreeChecker::new(&t, p).unwrap()
}

#[test]
fn labels_and_mirror() {
    assert_eq!(P2C.label(), "Provider→Customer");
    assert_eq!(C2P.label(), "Customer→Provider");
    assert_eq!(P2P.label(), "Peer↔Peer");
    assert_eq!(P2C.short_label(), "p2c");
    assert_eq!(C2P.short_label(), "c2p");
    assert_eq!(P2P.short_label(), "p2p");
    assert_eq!(P2C.mirror(), C2P);
    assert_eq!(C2P.mirror(), P2C);
    assert_eq!(P2P.mirror(), P2P);
    for r in [P2C, C2P, P2P] {
        assert_eq!(r.mirror().mirror(), r);
    }
    assert_eq!(LeakType::ValleyDownUp.label(), "Valley (Down→Up)");
    assert_eq!(LeakType::ValleyDownPeer.label(), "Valley (Down→Peer)");
    assert_eq!(LeakType::ValleyPeerUp.label(), "Valley (Peer→Up)");
    assert_eq!(LeakType::MultiPeer.label(), "Multi-Peer");
}

#[test]
fn relationships_are_inferred_from_degrees() {
    let p = sample();
    let c = checker(&p);
    assert_eq!(c.get_relationship(1, 2), Some(P2C));
    assert_eq!(c.get_relationship(2, 1), Some(C2P));
    assert_eq!(c.get_relationship(2, 3), Some(P2P));
    assert_eq!(c.get_relationship(3, 2), Some(P2P));
    assert_eq!(c.get_relationship(10, 2), Some(C2P));
    assert_eq!(c.get_relationship(10, 11), None);
    assert_eq!(c.total_relationships(), 5);
    let stats = c.relationship_stats();
    assert_eq!(
        stats,
        vec![
            ("Provider→Customer".to_string(), 4),
            ("Customer→Provider".to_string(), 0),
            ("Peer↔Peer".to_string(), 1),
        ]
    );
}

#[test]
fn relationship_reads_mirrored_from_the_other_end() {
    let p = sample();
    p.as_link_counts.insert((3, 1), 1);
    let c = checker(&p);
    for a in [1u32, 2, 3, 10, 11, 12] {
        for b in [1u32, 2, 3, 10, 11, 12] {
            assert_eq!(c.get_relationship(b, a), c.get_relationship(a, b).map(|r| r.mirror()));
        }
    }
}

#[test]
fn peering_threshold_matches_the_degree_ratio() {
    for x in 1u64..=15 {
        for y in 1u64..=15 {
            let p = ParallelProcessor::new();
            p.as_link_counts.insert((100, 200), 1);
            if x > 1 {
                p.as_link_counts.insert((100, 300), x - 1);
            }
            if y > 1 {
                p.as_link_counts.insert((200, 400), y - 1);
            }
            let c = checker(&p);
            let (hi, lo) = if x >= y { (x as f64, y as f64) } else { (y as f64, x as f64) };
            let ratio = if hi > 0.0 { lo / hi } else { 1.0 };
            let expected = if ratio >= 0.6 {
                P2P
            } else if x > y {
                P2C
            } else {
                C2P
            };
            assert_eq!(c.get_relationship(100, 200), Some(expected), "degrees {} and {}", x, y);
        }
    }
}

fn relationship_for_degrees(x: u64, y: u64) -> Option<AsRelationship> {
    let p = ParallelProcessor::new();
    p.as_link_counts.insert((100, 200), 1);
    if x > 1 {
        p.as_link_counts.insert((100, 300), x - 1);
    }
    if y > 1 {
        p.as_link_counts.insert((200, 400), y - 1);
    }
    checker(&p).get_relationship(100, 200)
}

fn float_relationship(x: u64, y: u64) -> AsRelationship {
    let deg_a = x as f64;
    let deg_b = y as f64;
    let max_deg = deg_a.max(deg_b);
    let min_deg = deg_a.min(deg_b);
    let ratio = if max_deg > 0.0 { min_deg / max_deg } else { 1.0 };
    if ratio >= 0.6 {
        P2P
    } else if deg_a > deg_b {
        P2C
    } else {
        C2P
    }
}

#[test]
fn large_degrees_follow_the_floating_point_ratio() {
    let base: u64 = 1 << 58;
    let cases: Vec<(u64, u64)> = vec![
        // 3 * 2^58 - 1 becomes 3 * 2^58 as a double: the ratio is 0.6.
        (3 * base - 1, 5 * base),
        (5 * base, 3 * base - 1),
        (3 * base - 200, 5 * base),
        (3 * base, 5 * base + 1),
        ((1 << 53) + 1, 1 << 53),
        ((1 << 62) + 12345, (1 << 61) + 999),
        (u64::MAX / 4, u64::MAX / 4 - 1),
        (1 << 60, 1),
    ];
    for (x, y) in cases {
        assert_eq!(relationship_for_degrees(x, y), Some(float_relationship(x, y)), "degrees {} and {}", x, y);
    }
    // The first case is a peering only because of rounding.
    assert_eq!(relationship_for_degrees(3 * base - 1, 5 * base), Some(P2P));
    assert_eq!(relationship_for_degrees(3 * base - 200, 5 * base), Some(C2P));
}

#[test]
fn degree_overflow_is_refused() {
    let p = ParallelProcessor::new();
    let t = AsTopology::build_from_processor(&p).unwrap();
    let q = ParallelProcessor::new();
    q.as_link_counts.insert((1, 2), u64::MAX);
    q.as_link_counts.insert((2, 3), 1);
    assert!(matches!(ValleyFreeChecker::new(&t, &q), Err(CountError::CounterOverflow)));
}

#[test]
fn valley_free_paths_have_no_violation() {
    let c = checker(&sample());
    assert!(c.check_as_path(&[10, 2, 1, 3, 11]).is_empty());
    assert!(c.check_as_path(&[10, 2, 3]).is_empty());
    assert!(c.check_as_path(&[1, 2]).is_empty());
    assert!(c.check_as_path(&[]).is_empty());
    // Unknown links neither close nor open a valley.
    assert!(c.check_as_path(&[7, 8, 9]).is_empty());
}

#[test]
fn each_kind_of_valley_is_found() {
    let c = checker(&sample());

    let v = c.check_as_path(&[1, 2, 3]);
    assert_eq!(v.len(), 1);
    assert_eq!(v[0].violation_index, 1);
    assert_eq!(v[0].leak_type, LeakType::ValleyDownPeer);
    assert_eq!(v[0].prefix, "");
    assert_eq!(v[0].as_path, vec![1, 2, 3]);
    assert_eq!(v[0].relationships, vec![Some(P2C), Some(P2P)]);
    assert_eq!(v[0].violation_desc, "AS2 → AS3 (p2p) after descending path — Valley detected");

    let v = c.check_as_path(&[3, 2, 1]);
    assert_eq!(v.len(), 1);
    assert_eq!(v[0].leak_type, LeakType::ValleyPeerUp);
    assert_eq!(v[0].violation_desc, "AS2 → AS1 (c2p) after peer link — Valley detected");

    let v = c.check_as_path(&[1, 2, 1]);
    assert_eq!(v[0].leak_type, LeakType::ValleyDownUp);
    assert_eq!(v[0].violation_desc, "AS2 → AS1 (c2p) after descending path — Valley detected");

    let v = c.check_as_path(&[2, 3, 2]);
    assert_eq!(v[0].leak_type, LeakType::MultiPeer);
    assert_eq!(v[0].violation_desc, "AS3 → AS2 (p2p) — Multiple peer links in path");

    let v = c.check_as_path(&[10, 2, 3, 11]);
    assert_eq!(v.len(), 1);
    assert_eq!(v[0].violation_index, 2);
    assert_eq!(v[0].leak_type, LeakType::ValleyDownPeer);
    assert_eq!(v[0].violation_desc, "AS3 → AS11 (p2c) after peer link — Valley detected");

    // Several valleys on one path, in path order.
    let v = c.check_as_path(&[1, 2, 3, 2, 1]);
    let kinds: Vec<(usize, LeakType)> = v.iter().map(|x| (x.violation_index, x.leak_type)).collect();
    assert_eq!(
        kinds,
        vec![(1, LeakType::ValleyDownPeer), (2, LeakType::MultiPeer), (3, LeakType::ValleyDownUp)]
    );
}

#[test]
fn route_leaks_are_ordered_and_deduplicated() {
    let c = checker(&sample());
    let entries = vec![
        (3u32, vec![update(Some("10.0.0.0"), &[3, 2, 1]), update(Some("11.0.0.0"), &[3, 2, 1])]),
        (1u32, vec![update(None, &[1, 2, 1])]),
        (2u32, vec![update(Some("12.0.0.0"), &[1, 2, 3]), update(Some("13.0.0.0"), &[10, 2, 3, 11])]),
        (4u32, vec![update(Some("14.0.0.0"), &[2, 3, 2]), update(None, &[10, 2, 1, 3, 11])]),
    ];
    let leaks = c.route_leaks_in(&entries);
    let got: Vec<(LeakType, usize, String)> =
        leaks.iter().map(|v| (v.leak_type, v.violation_index, v.prefix.clone())).collect();
    assert_eq!(
        got,
        vec![
            (LeakType::ValleyPeerUp, 1, "10.0.0.0/8".to_string()),
            (LeakType::ValleyDownUp, 1, String::new()),
            (LeakType::ValleyDownPeer, 2, "13.0.0.0/8".to_string()),
            (LeakType::ValleyDownPeer, 1, "12.0.0.0/8".to_string()),
            (LeakType::MultiPeer, 1, "14.0.0.0/8".to_string()),
        ]
    );
}

#[test]
fn route_leaks_of_a_processor() {
    let p = sample();
    p.all_updates.insert(3, vec![update(Some("10.0.0.0"), &[3, 2, 1])]);
    p.all_updates.insert(11, vec![update(Some("20.0.0.0"), &[10, 2, 1, 3, 11])]);
    let c = checker(&p);
    let leaks = c.detect_route_leaks(&p);
    assert_eq!(leaks.len(), 1);
    assert_eq!(leaks[0].prefix, "10.0.0.0/8");
    assert_eq!(leaks[0].leak_type, LeakType::ValleyPeerUp);
}

#[test]
fn relationship_counts_add_up_to_the_total() {
    let p = sample();
    p.as_link_counts.insert((3, 1), 1);
    p.as_link_counts.insert((10, 11), 1);
    let c = checker(&p);
    let stats = c.relationship_stats();
    let sum: usize = stats.iter().map(|(_, n)| *n).sum();
    assert_eq!(sum, c.total_relationships());
    assert_eq!(c.total_relationships(), 7);
}
