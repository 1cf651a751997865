use bgp_analyzer::parallel_processor::ParallelProcessor;
use bgp_analyzer::topology::AsTopology;

fn processor_with_links(links: &[((u32, u32), u64)]) -> ParallelProcessor {
    let p = ParallelProcessor::new();
    for (k, c) in links {
        p.as_link_counts.insert(*k, *c);
    }
    p
}

#[test]
fn one_node_per_as_and_one_edge_per_link() {
    let p = processor_with_links(&[((1, 2), 3), ((2, 3), 1), ((3, 1), 2), ((4, 4), 1)]);
    let t = AsTopology::build_from_processor(&p).unwrap();
    assert_eq!(t.node_count(), 4);
    assert_eq!(t.edge_count(), 4);
    assert_eq!(t.node_degree(1), Some(5));
    assert_eq!(t.node_degree(2), Some(4));
    assert_eq!(t.node_degree(3), Some(3));
    assert_eq!(t.node_degree(4), Some(2));
    assert_eq!(t.node_degree(9), None);
    assert_eq!(t.out_degree(1), Some(1));
    assert_eq!(t.in_degree(1), Some(1));
    assert_eq!(t.in_degree(4), Some(1));
    assert_eq!(t.out_degree(9), None);
}

#[test]
fn empty_link_table_gives_empty_graph() {
    let p = ParallelProcessor::new();
    let t = AsTopology::build_from_processor(&p).unwrap();
    assert_eq!(t.node_count(), 0);
    assert_eq!(t.edge_count(), 0);
    assert!(t.get_top_hubs(5).is_empty());
    assert!(t.get_hub_paths(1, 4).is_empty());
}

#[test]
fn top_hubs_are_sorted_by_degree() {
    let p = processor_with_links(&[((1, 2), 1), ((1, 3), 1), ((1, 4), 1), ((2, 3), 5), ((5, 6), 1)]);
    let t = AsTopology::build_from_processor(&p).unwrap();
    let hubs = t.get_top_hubs(3);
    assert_eq!(hubs.len(), 3);
    // ASes 2 and 3 tie on degree 6; their order follows node order.
    let mut first_two = vec![hubs[0], hubs[1]];
    first_two.sort();
    assert_eq!(first_two, vec![(2, 6), (3, 6)]);
    assert_eq!(hubs[2], (1, 3));
    let all = t.get_top_hubs(100);
    assert_eq!(all.len(), 6);
    for w in all.windows(2) {
        assert!(w[0].1 >= w[1].1);
    }
    assert!(t.get_top_hubs(0).is_empty());
}

#[test]
fn hub_paths_walk_outgoing_edges_without_revisiting() {
    // 1 -> 2 -> 3 -> 1 is a cycle; 2 -> 4.
    let p = processor_with_links(&[((1, 2), 1), ((2, 3), 1), ((3, 1), 1), ((2, 4), 1)]);
    let t = AsTopology::build_from_processor(&p).unwrap();
    let mut paths = t.get_hub_paths(1, 4);
    for path in &paths {
        assert_eq!(path[0], 1);
        assert!(path.len() >= 2 && path.len() <= 4);
        let mut seen = path.clone();
        seen.sort();
        seen.dedup();
        assert_eq!(seen.len(), path.len());
    }
    paths.sort();
    assert_eq!(paths, vec![vec![1, 2], vec![1, 2, 3], vec![1, 2, 4]]);
    let short = t.get_hub_paths(1, 2);
    assert_eq!(short, vec![vec![1, 2]]);
    assert!(t.get_hub_paths(1, 1).is_empty());
    assert!(t.get_hub_paths(42, 4).is_empty());
}

#[test]
fn shortest_path_is_never_reported() {
    let p = processor_with_links(&[((1, 2), 1)]);
    let t = AsTopology::build_from_processor(&p).unwrap();
    assert_eq!(t.compute_shortest_path(1, 2), None);
    assert_eq!(t.compute_shortest_path(1, 7), None);
}
