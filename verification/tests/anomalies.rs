use bgp_analyzer::anomaly::{AlertConfidence, AlertType, AnomalyDetector};
use bgp_analyzer::bgp_extract::{AsPathSegment, BgpPrefix, BgpUpdate};
use bgp_analyzer::parallel_processor::ParallelProcessor;
use bgp_analyzer::topology::AsTopology;

fn update(prefixes: &[&str], path: &[u32]) -> BgpUpdate {
    BgpUpdate {
        announced_prefixes: prefixes.iter().map(|p| BgpPrefix::new(p.to_string(), 24)).collect(),
        withdrawn_prefixes: Vec::new(),
        as_path: vec![AsPathSegment { segment_type: 1, asns: path.to_vec() }],
        origin_as: path.last().copied(),
        next_hop: None,
        source_as: None,
        peer_as: None,
        timestamp: 0,
    }
}

#[test]
fn owner_is_the_most_frequent_announcer() {
    assert_eq!(AnomalyDetector::prefix_owner(&[]), None);
    assert_eq!(AnomalyDetector::prefix_owner(&[5]), Some(5));
    assert_eq!(AnomalyDetector::prefix_owner(&[1, 2, 2, 3, 2, 1]), Some(2));
    // On a tie, the AS announced first.
    assert_eq!(AnomalyDetector::prefix_owner(&[4, 7, 7, 4]), Some(4));
    assert_eq!(AnomalyDetector::prefix_owner(&[9, 4, 7, 7, 4]), Some(4));
}

#[test]
fn distinct_keeps_first_occurrences() {
    assert_eq!(AnomalyDetector::distinct_asns(&[3, 1, 3, 2, 1]), vec![3, 1, 2]);
    assert!(AnomalyDetector::distinct_asns(&[]).is_empty());
}

fn sample_topology() -> (ParallelProcessor, AsTopology) {
    let p = ParallelProcessor::new();
    // 1 -> 2, 2 -> 3, 9 -> 2: nothing enters AS1 or AS9.
    for (k, c) in [((1, 2), 1u64), ((2, 3), 1), ((9, 2), 30)] {
        p.as_link_counts.insert(k, c);
    }
    let t = AsTopology::build_from_processor(&p).unwrap();
    (p, t)
}

#[test]
fn zombies_are_ases_nothing_enters() {
    let (_p, t) = sample_topology();
    assert!(AnomalyDetector::is_zombie_asn(1, &t));
    assert!(AnomalyDetector::is_zombie_asn(9, &t));
    assert!(!AnomalyDetector::is_zombie_asn(2, &t));
    assert!(!AnomalyDetector::is_zombie_asn(3, &t));
    assert!(!AnomalyDetector::is_zombie_asn(77, &t));
}

#[test]
fn confidence_factors() {
    let (_p, t) = sample_topology();
    let f = AnomalyDetector::compute_confidence(3, 2, &[2], &t);
    assert!(f.outside_hubs);
    assert_eq!(f.degree, Some(1));
    assert!(f.origins_differ);
    let f = AnomalyDetector::compute_confidence(2, 2, &[2], &t);
    assert!(!f.outside_hubs);
    assert_eq!(f.degree, Some(32));
    assert!(!f.origins_differ);
    let f = AnomalyDetector::compute_confidence(50, 2, &[], &t);
    assert_eq!(f.degree, None);
}

#[test]
fn hijack_alerts_name_every_other_announcer() {
    let (_p, t) = sample_topology();
    let entries = vec![
        ("10.0.0.0/24".to_string(), vec![3, 3, 1, 3]),
        ("10.1.0.0/24".to_string(), vec![3, 3]),
        ("10.2.0.0/24".to_string(), vec![]),
    ];
    let alerts = AnomalyDetector::hijack_alerts_in(&entries, &t);
    assert_eq!(alerts.len(), 1);
    let a = &alerts[0];
    assert_eq!(a.prefix, "10.0.0.0/24");
    assert_eq!(a.origin_as, 3);
    assert_eq!(a.hijack_as, 1);
    assert_eq!(a.alert_type, AlertType::ZombieNode);
    assert_eq!(a.evidence, "AS1 claims ownership of 10.0.0.0/24 (legitimate: AS3)");
    match a.confidence {
        AlertConfidence::Scored(f) => {
            // AS1 has degree 1 and is among the top hubs of this small graph.
            assert!(!f.outside_hubs);
            assert_eq!(f.degree, Some(1));
            assert!(f.origins_differ);
        }
        AlertConfidence::PathLoop => panic!("expected a scored alert"),
    }
    for a in &alerts {
        assert_ne!(a.hijack_as, a.origin_as);
    }
}

#[test]
fn hijacker_outside_the_topology_is_a_prefix_hijack() {
    let (_p, t) = sample_topology();
    let entries = vec![("192.0.2.0/24".to_string(), vec![2, 500, 2, 600])];
    let alerts = AnomalyDetector::hijack_alerts_in(&entries, &t);
    let named: Vec<(u32, AlertType)> = alerts.iter().map(|a| (a.hijack_as, a.alert_type)).collect();
    assert_eq!(named, vec![(500, AlertType::PrefixHijack), (600, AlertType::PrefixHijack)]);
    match alerts[0].confidence {
        AlertConfidence::Scored(f) => {
            assert!(f.outside_hubs);
            assert_eq!(f.degree, None);
        }
        AlertConfidence::PathLoop => panic!("expected a scored alert"),
    }
}

#[test]
fn path_loops_blame_the_first_repeated_as() {
    let entries = vec![
        (5u32, vec![update(&["10.0.0.0", "10.9.0.0"], &[1, 2, 3, 2, 1, 5])]),
        (6u32, vec![update(&["10.5.0.0"], &[4, 6])]),
    ];
    let alerts = AnomalyDetector::as_path_loop_alerts_in(&entries);
    assert_eq!(alerts.len(), 2);
    for a in &alerts {
        assert_eq!(a.hijack_as, 2);
        assert_eq!(a.origin_as, 2);
        assert_eq!(a.alert_type, AlertType::AsPathLoop);
        assert!(matches!(a.confidence, AlertConfidence::PathLoop));
    }
    assert_eq!(alerts[0].prefix, "10.0.0.0/24");
    assert_eq!(alerts[1].prefix, "10.9.0.0/24");
    assert_eq!(alerts[0].evidence, "AS-Path loop detected: AS2 appears multiple times in path to 10.0.0.0/24");
}

#[test]
fn detect_hijacks_appends_loop_alerts() {
    let (p, t) = sample_topology();
    p.prefix_as_map.insert("10.0.0.0/24".to_string(), vec![3, 3, 1]);
    p.all_updates.insert(1, vec![update(&["10.7.0.0"], &[2, 1, 2, 1])]);
    let alerts = AnomalyDetector::detect_hijacks(&p, &t);
    assert_eq!(alerts.len(), 2);
    assert_eq!(alerts[0].alert_type, AlertType::ZombieNode);
    assert_eq!(alerts[1].alert_type, AlertType::AsPathLoop);
    assert_eq!(alerts[1].hijack_as, 2);
    assert_eq!(AnomalyDetector::detect_as_path_loops(&p).len(), 1);
}

#[test]
fn zombie_reports_most_affected_first() {
    let (p, t) = sample_topology();
    p.all_updates.insert(
        1,
        vec![
            update(&["10.0.0.0"], &[7, 1]),
            update(&["10.1.0.0", "10.2.0.0"], &[1]),
        ],
    );
    p.all_updates.insert(
        9,
        vec![
            update(&["11.0.0.0"], &[8, 9]),
            update(&["11.1.0.0"], &[1, 9]),
            update(&["11.2.0.0"], &[2, 9]),
            update(&["11.3.0.0"], &[3, 9]),
            update(&["11.4.0.0"], &[4, 9]),
            update(&["11.5.0.0"], &[5, 9]),
        ],
    );
    // AS2 is not a zombie; AS3 is not one either.
    p.all_updates.insert(2, vec![update(&["12.0.0.0"], &[1, 2])]);
    let zombies = AnomalyDetector::detect_zombie_nodes(&p, &t);
    assert_eq!(zombies.len(), 2);
    assert_eq!(zombies[0].asn, 9);
    assert_eq!(zombies[0].affected_prefixes.len(), 6);
    assert_eq!(zombies[0].suspicious_paths.len(), 5);
    assert_eq!(zombies[0].suspicious_paths[0], vec![8, 9]);
    assert_eq!(zombies[1].asn, 1);
    assert_eq!(zombies[1].reason, "Low connectivity with active route announcements");
    assert_eq!(
        zombies[1].affected_prefixes,
        vec!["10.0.0.0/24".to_string(), "10.1.0.0/24".to_string(), "10.2.0.0/24".to_string()]
    );
    assert_eq!(zombies[1].suspicious_paths, vec![vec![7, 1]]);
}

#[test]
fn zombie_without_announcements_is_not_reported() {
    let (_p, t) = sample_topology();
    let entries = vec![(9u32, vec![update(&[], &[8, 9])])];
    assert!(AnomalyDetector::zombie_nodes_in(&entries, &t).is_empty());
}
