//! The AS-level topology: a directed graph with one node per AS and one
//! edge per observed link, weighted by how often the link was seen.
use petgraph::graph::{DiGraph, NodeIndex};
use petgraph::Direction;
use std::collections::HashMap;
use vstd::prelude::*;

use crate::parallel_processor::{
    degree_table, degrees_fit, entries_match, link_endpoints, spec_degree, CountError, ParallelProcessor,
};
use crate::ranking::{is_ranking, lemma_ranking_unique, rank_desc};

verus! {

broadcast use vstd::std_specs::hash::group_hash_axioms;

#[verifier::external_type_specification]
#[verifier::external_body]
#[verifier::reject_recursive_types(N)]
#[verifier::reject_recursive_types(E)]
#[verifier::reject_recursive_types(Ty)]
#[verifier::reject_recursive_types(Ix)]
pub struct ExGraph<N, E, Ty, Ix>(petgraph::graph::Graph<N, E, Ty, Ix>);

#[verifier::external_type_specification]
#[verifier::external_body]
pub struct ExDirected(petgraph::Directed);

/// A node of the topology: an AS and its degree.
#[derive(Debug, Clone)]
pub struct AsNode {
    pub asn: u32,
    pub degree: u64,
}

/// An edge of the topology: how often the link was seen.
#[derive(Debug, Clone)]
pub struct AsEdge {
    pub weight: u64,
}

/// The nodes of a graph, by index: AS number and degree.
pub uninterp spec fn graph_nodes(g: DiGraph<AsNode, AsEdge>) -> Seq<(u32, u64)>;

/// The edges of a graph, in the order they were added: source index,
/// target index and weight.
pub uninterp spec fn graph_edges(g: DiGraph<AsNode, AsEdge>) -> Seq<(usize, usize, u64)>;

/// petgraph's `Graph::new`: a graph without nodes or edges.
#[verifier::external_body]
fn graph_new() -> (g: DiGraph<AsNode, AsEdge>)
    ensures
        graph_nodes(g).len() == 0,
        graph_edges(g).len() == 0,
{
    DiGraph::new()
}

/// petgraph's `Graph::add_node`: the node is appended and its index
/// returned (it panics once the `u32` index space is full, which `requires`
/// rules out).
#[verifier::external_body]
fn graph_add_node(g: &mut DiGraph<AsNode, AsEdge>, node: AsNode) -> (idx: usize)
    requires
        graph_nodes(*old(g)).len() < u32::MAX,
    ensures
        idx == graph_nodes(*old(g)).len(),
        graph_nodes(*final(g)) == graph_nodes(*old(g)).push((node.asn, node.degree)),
        graph_edges(*final(g)) == graph_edges(*old(g)),
{
    g.add_node(node).index()
}

/// petgraph's `Graph::add_edge`: the edge is appended (it panics on an
/// index that is not a node, or once the `u32` index space is full, which
/// `requires` rules out).
#[verifier::external_body]
fn graph_add_edge(g: &mut DiGraph<AsNode, AsEdge>, a: usize, b: usize, edge: AsEdge)
    requires
        a < graph_nodes(*old(g)).len(),
        b < graph_nodes(*old(g)).len(),
        graph_edges(*old(g)).len() < u32::MAX,
    ensures
        graph_nodes(*final(g)) == graph_nodes(*old(g)),
        graph_edges(*final(g)) == graph_edges(*old(g)).push((a, b, edge.weight)),
{
    g.add_edge(NodeIndex::new(a), NodeIndex::new(b), edge);
}

/// petgraph's indexing `graph[idx]`: the node stored at `idx` (it panics
/// on an index that is not a node, which `requires` rules out).
#[verifier::external_body]
fn graph_node(g: &DiGraph<AsNode, AsEdge>, idx: usize) -> (n: AsNode)
    requires
        idx < graph_nodes(*g).len(),
    ensures
        (n.asn, n.degree) == graph_nodes(*g)[idx as int],
{
    let n = &g[NodeIndex::new(idx)];
    AsNode { asn: n.asn, degree: n.degree }
}

/// petgraph's `node_count`.
#[verifier::external_body]
fn graph_node_count(g: &DiGraph<AsNode, AsEdge>) -> (r: usize)
    ensures
        r == graph_nodes(*g).len(),
{
    g.node_count()
}

/// petgraph's `edge_count`.
#[verifier::external_body]
fn graph_edge_count(g: &DiGraph<AsNode, AsEdge>) -> (r: usize)
    ensures
        r == graph_edges(*g).len(),
{
    g.edge_count()
}

/// Targets of the edges leaving node `i`, most recently added first.
pub open spec fn out_neighbors(edges: Seq<(usize, usize, u64)>, i: usize) -> Seq<usize>
    decreases edges.len(),
{
    if edges.len() == 0 {
        Seq::empty()
    } else {
        let e = edges.last();
        (if e.0 == i {
            seq![e.1]
        } else {
            Seq::empty()
        }) + out_neighbors(edges.drop_last(), i)
    }
}

/// Sources of the edges entering node `i`, most recently added first.
pub open spec fn in_neighbors(edges: Seq<(usize, usize, u64)>, i: usize) -> Seq<usize>
    decreases edges.len(),
{
    if edges.len() == 0 {
        Seq::empty()
    } else {
        let e = edges.last();
        (if e.1 == i {
            seq![e.0]
        } else {
            Seq::empty()
        }) + in_neighbors(edges.drop_last(), i)
    }
}

/// petgraph's `neighbors_directed(idx, Outgoing)`: the targets of the
/// edges leaving `idx`, most recently added edge first, as its
/// documentation states for directed graphs.
#[verifier::external_body]
fn graph_out_neighbors(g: &DiGraph<AsNode, AsEdge>, idx: usize) -> (r: Vec<usize>)
    requires
        idx < graph_nodes(*g).len(),
    ensures
        r@ == out_neighbors(graph_edges(*g), idx),
{
    g.neighbors_directed(NodeIndex::new(idx), Direction::Outgoing).map(|n| n.index()).collect()
}

/// petgraph's `neighbors_directed(idx, Incoming)`: the sources of the edges
/// entering `idx`, most recently added edge first.
#[verifier::external_body]
fn graph_in_neighbors(g: &DiGraph<AsNode, AsEdge>, idx: usize) -> (r: Vec<usize>)
    requires
        idx < graph_nodes(*g).len(),
    ensures
        r@ == in_neighbors(graph_edges(*g), idx),
{
    g.neighbors_directed(NodeIndex::new(idx), Direction::Incoming).map(|n| n.index()).collect()
}

/// The cost of every edge in a shortest-path search by hop count.
fn unit_edge_cost() -> (c: u64)
    ensures
        c == 1,
{
    1
}

/// petgraph's `algo::dijkstra` from `from` towards `to`, by hop count; its
/// result is not used, so nothing is stated of it (it panics on a start
/// index that is not a node, which `requires` rules out).
#[verifier::external_body]
fn graph_run_dijkstra(g: &DiGraph<AsNode, AsEdge>, from: usize, to: usize)
    requires
        from < graph_nodes(*g).len(),
        to < graph_nodes(*g).len(),
{
    let _scores = petgraph::algo::dijkstra(g, NodeIndex::new(from), Some(NodeIndex::new(to)), |_| unit_edge_cost());
}

/// The AS-level topology.
pub struct AsTopology {
    pub graph: DiGraph<AsNode, AsEdge>,
    pub asn_to_idx: HashMap<u32, usize>,
}

impl AsTopology {
    /// The nodes: AS number and degree, by index.
    pub open spec fn nodes(&self) -> Seq<(u32, u64)> {
        graph_nodes(self.graph)
    }

    /// The edges: source index, target index and weight, in insertion order.
    pub open spec fn edges(&self) -> Seq<(usize, usize, u64)> {
        graph_edges(self.graph)
    }

    /// The index of each AS.
    pub open spec fn index_of(&self) -> Map<u32, usize> {
        self.asn_to_idx@
    }

    /// The index map and the graph agree: each node's AS maps to the node,
    /// each mapped AS is at its node, and edges join nodes.
    pub open spec fn wf(&self) -> bool {
        &&& self.nodes().len() <= u32::MAX
        &&& self.edges().len() <= u32::MAX
        &&& forall|i: int|
            0 <= i < self.nodes().len() ==> self.index_of().contains_key(#[trigger] self.nodes()[i].0)
                && self.index_of()[self.nodes()[i].0] == i
        &&& forall|a: u32|
            #[trigger] self.index_of().contains_key(a) ==> self.index_of()[a] < self.nodes().len()
                && self.nodes()[self.index_of()[a] as int].0 == a
        &&& forall|k: int|
            0 <= k < self.edges().len() ==> (#[trigger] self.edges()[k]).0 < self.nodes().len()
                && self.edges()[k].1 < self.nodes().len()
    }

    /// The AS numbers of the nodes.
    pub open spec fn node_asns(&self) -> Set<u32> {
        self.index_of().dom()
    }

    /// Builds the topology from the link table: one node per AS that ends
    /// a link, with its degree, and one edge per link with its count.
    /// `Err` when a degree passes `u64::MAX`, or when there are more ASes or
    /// links than the graph's `u32` indices can number.
    pub fn build_from_processor(processor: &ParallelProcessor) -> (res: Result<Self, CountError>)
        ensures
            match res {
                Ok(t) => {
                    let links = processor.tables().links;
                    &&& t.wf()
                    &&& degrees_fit(links)
                    &&& t.node_asns() == link_endpoints(links)
                    &&& forall|i: int|
                        0 <= i < t.nodes().len() ==> (#[trigger] t.nodes()[i]).1 == spec_degree(
                            links,
                            t.nodes()[i].0,
                        )
                    &&& t.edges().len() == links.dom().len()
                    &&& forall|k: int|
                        0 <= k < t.edges().len() ==> {
                            let e = #[trigger] t.edges()[k];
                            let link = (t.nodes()[e.0 as int].0, t.nodes()[e.1 as int].0);
                            links.contains_key(link) && links[link] == e.2
                        }
                    &&& forall|link: (u32, u32)|
                        #[trigger] links.contains_key(link) ==> exists|k: int|
                            0 <= k < t.edges().len() && t.nodes()[t.edges()[k].0 as int].0 == link.0
                                && t.nodes()[t.edges()[k].1 as int].0 == link.1
                },
                Err(CountError::CounterOverflow) => !degrees_fit(processor.tables().links),
                Err(CountError::TooManyNodes) => degrees_fit(processor.tables().links)
                    && link_endpoints(processor.tables().links).len() > u32::MAX,
                Err(CountError::TooManyEdges) => degrees_fit(processor.tables().links)
                    && link_endpoints(processor.tables().links).len() <= u32::MAX
                    && processor.tables().links.dom().len() > u32::MAX,
            },
    {
        let degree_map = match processor.get_asn_degree_map() {
            Ok(d) => d,
            Err(e) => return Err(e),
        };
        let ghost links = processor.tables().links;
        let entries = crate::parallel_processor::link_table_entries(&processor.as_link_counts);
        proof {
            crate::parallel_processor::lemma_entries_len(links, entries@);
        }
        let mut graph = graph_new();
        let mut asn_to_idx: HashMap<u32, usize> = HashMap::new();
        let mut i: usize = 0;
        while i < entries.len()
            invariant
                i <= entries@.len(),
                links == processor.tables().links,
                degrees_fit(links),
                link_endpoints(links).finite(),
                degree_table(degree_map).dom() == link_endpoints(links),
                forall|a: u32| #[trigger] degree_table(degree_map).contains_key(a) ==> degree_table(degree_map)[a]
                    == spec_degree(links, a),
                entries_match(links, entries@),
                graph_edges(graph).len() == 0,
                graph_nodes(graph).len() <= u32::MAX,
                node_index_agrees(graph_nodes(graph), asn_to_idx@),
                forall|j: int|
                    0 <= j < graph_nodes(graph).len() ==> (#[trigger] graph_nodes(graph)[j]).1 == spec_degree(
                        links,
                        graph_nodes(graph)[j].0,
                    ),
                forall|a: u32| #[trigger] asn_to_idx@.contains_key(a) ==> link_endpoints(links).contains(a),
                forall|j: int|
                    0 <= j < i ==> asn_to_idx@.contains_key((#[trigger] entries@[j]).0.0)
                        && asn_to_idx@.contains_key(entries@[j].0.1),
            decreases entries@.len() - i,
        {
            let (key, _count) = entries[i];
            let (src, dst) = key;
            proof {
                assert(links.contains_key(key));
                assert(link_endpoints(links).contains(src));
                assert(link_endpoints(links).contains(dst));
            }
            if !Self::ensure_node(&mut graph, &mut asn_to_idx, &degree_map, src, Ghost(links)) {
                return Err(CountError::TooManyNodes);
            }
            if !Self::ensure_node(&mut graph, &mut asn_to_idx, &degree_map, dst, Ghost(links)) {
                return Err(CountError::TooManyNodes);
            }
            i = i + 1;
        }
        proof {
            assert(asn_to_idx@.dom() =~= link_endpoints(links)) by {
                assert forall|a: u32| link_endpoints(links).contains(a) implies asn_to_idx@.contains_key(a) by {
                    let kk = choose|kk: (u32, u32)| links.contains_key(kk) && (kk.0 == a || kk.1 == a);
                    let j = choose|j: int| 0 <= j < entries@.len() && entries@[j].0 == kk;
                    assert(asn_to_idx@.contains_key(entries@[j].0.0));
                }
            }
        }
        proof {
            lemma_index_size(graph_nodes(graph), asn_to_idx@);
        }
        if entries.len() > u32::MAX as usize {
            return Err(CountError::TooManyEdges);
        }
        let mut k: usize = 0;
        while k < entries.len()
            invariant
                k <= entries@.len(),
                entries@.len() <= u32::MAX,
                links == processor.tables().links,
                entries_match(links, entries@),
                degrees_fit(links),
                asn_to_idx@.dom() == link_endpoints(links),
                forall|j: int|
                    0 <= j < graph_nodes(graph).len() ==> (#[trigger] graph_nodes(graph)[j]).1 == spec_degree(
                        links,
                        graph_nodes(graph)[j].0,
                    ),
                graph_edges(graph).len() == k,
                graph_nodes(graph).len() <= u32::MAX,
                node_index_agrees(graph_nodes(graph), asn_to_idx@),
                forall|j: int|
                    0 <= j < entries@.len() ==> asn_to_idx@.contains_key((#[trigger] entries@[j]).0.0)
                        && asn_to_idx@.contains_key(entries@[j].0.1),
                forall|j: int|
                    0 <= j < k ==> {
                        let e = #[trigger] graph_edges(graph)[j];
                        &&& e.0 == asn_to_idx@[entries@[j].0.0]
                        &&& e.1 == asn_to_idx@[entries@[j].0.1]
                        &&& e.2 == entries@[j].1
                    },
            decreases entries@.len() - k,
        {
            let (key, count) = entries[k];
            let (src, dst) = key;
            let src_idx = *asn_to_idx.get(&src).unwrap();
            let dst_idx = *asn_to_idx.get(&dst).unwrap();
            graph_add_edge(&mut graph, src_idx, dst_idx, AsEdge { weight: count });
            k = k + 1;
        }
        let topo = AsTopology { graph, asn_to_idx };
        proof {
            assert forall|kk: int| 0 <= kk < topo.edges().len() implies {
                let e = #[trigger] topo.edges()[kk];
                let link = (topo.nodes()[e.0 as int].0, topo.nodes()[e.1 as int].0);
                links.contains_key(link) && links[link] == e.2
            } by {
                let e = topo.edges()[kk];
                assert(topo.nodes()[e.0 as int].0 == entries@[kk].0.0);
                assert(topo.nodes()[e.1 as int].0 == entries@[kk].0.1);
            }
            assert forall|link: (u32, u32)| #[trigger] links.contains_key(link) implies exists|kk: int|
                0 <= kk < topo.edges().len() && topo.nodes()[topo.edges()[kk].0 as int].0 == link.0
                    && topo.nodes()[topo.edges()[kk].1 as int].0 == link.1 by {
                let j = choose|j: int| 0 <= j < entries@.len() && entries@[j].0 == link;
                assert(topo.nodes()[topo.edges()[j].0 as int].0 == link.0);
            }
        }
        Ok(topo)
    }

    /// Adds a node for `asn`, with its degree, unless there is one; `false`
    /// when there is none and the graph has no index left for it.
    fn ensure_node(
        graph: &mut DiGraph<AsNode, AsEdge>,
        asn_to_idx: &mut HashMap<u32, usize>,
        degree_map: &dashmap::DashMap<u32, u64>,
        asn: u32,
        links: Ghost<Map<(u32, u32), u64>>,
    ) -> (ok: bool)
        requires
            graph_edges(*old(graph)).len() == 0,
            graph_nodes(*old(graph)).len() <= u32::MAX,
            link_endpoints(links@).finite(),
            degree_table(*degree_map).dom() == link_endpoints(links@),
            forall|a: u32| #[trigger] degree_table(*degree_map).contains_key(a) ==> degree_table(*degree_map)[a]
                == spec_degree(links@, a),
            link_endpoints(links@).contains(asn),
            node_index_agrees(graph_nodes(*old(graph)), old(asn_to_idx)@),
            forall|j: int|
                0 <= j < graph_nodes(*old(graph)).len() ==> (#[trigger] graph_nodes(*old(graph))[j]).1
                    == spec_degree(links@, graph_nodes(*old(graph))[j].0),
            forall|a: u32| #[trigger] old(asn_to_idx)@.contains_key(a) ==> link_endpoints(links@).contains(a),
        ensures
            link_endpoints(links@).len() <= u32::MAX ==> ok,
            !ok ==> link_endpoints(links@).len() > u32::MAX,
            ok ==> {
                &&& graph_edges(*final(graph)).len() == 0
                &&& graph_nodes(*final(graph)).len() <= u32::MAX
                &&& final(asn_to_idx)@.contains_key(asn)
                &&& forall|a: u32| #[trigger] old(asn_to_idx)@.contains_key(a) ==> final(asn_to_idx)@.contains_key(a)
                &&& node_index_agrees(graph_nodes(*final(graph)), final(asn_to_idx)@)
                &&& forall|j: int|
                    0 <= j < graph_nodes(*final(graph)).len() ==> (#[trigger] graph_nodes(*final(graph))[j]).1
                        == spec_degree(links@, graph_nodes(*final(graph))[j].0)
                &&& forall|a: u32| #[trigger] final(asn_to_idx)@.contains_key(a) ==> link_endpoints(links@).contains(a)
            },
    {
        if asn_to_idx.contains_key(&asn) {
            return true;
        }
        proof {
            lemma_new_node_fits(graph_nodes(*graph), asn_to_idx@, link_endpoints(links@), asn);
        }
        if graph_node_count(graph) == u32::MAX as usize {
            return false;
        }
        let degree = match crate::parallel_processor::degree_table_get(degree_map, asn) {
            Some(d) => d,
            None => 0,
        };
        let ghost before = graph_nodes(*graph);
        let idx = graph_add_node(graph, AsNode { asn, degree });
        asn_to_idx.insert(asn, idx);
        proof {
            assert forall|j: int| 0 <= j < graph_nodes(*graph).len() implies asn_to_idx@.contains_key(
                #[trigger] graph_nodes(*graph)[j].0,
            ) && asn_to_idx@[graph_nodes(*graph)[j].0] == j by {
                if j < before.len() {
                    assert(graph_nodes(*graph)[j] == before[j]);
                    assert(before[j].0 != asn);
                }
            }
        }
        true
    }
}

/// The index map and the node list agree both ways.
pub open spec fn node_index_agrees(nodes: Seq<(u32, u64)>, idx: Map<u32, usize>) -> bool {
    &&& forall|j: int|
        0 <= j < nodes.len() ==> idx.contains_key(#[trigger] nodes[j].0) && idx[nodes[j].0] == j
    &&& forall|a: u32| #[trigger] idx.contains_key(a) ==> idx[a] < nodes.len() && nodes[idx[a] as int].0 == a
}

/// The index map has as many ASes as there are nodes.
proof fn lemma_index_size(nodes: Seq<(u32, u64)>, idx: Map<u32, usize>)
    requires
        node_index_agrees(nodes, idx),
    ensures
        idx.dom().finite(),
        idx.dom().len() == nodes.len(),
{
    let s = nodes.map_values(|n: (u32, u64)| n.0);
    assert(s.no_duplicates()) by {
        assert forall|i: int, j: int| 0 <= i < s.len() && 0 <= j < s.len() && i != j implies s[i] != s[j] by {
            assert(idx[nodes[i].0] == i);
            assert(idx[nodes[j].0] == j);
        }
    }
    s.unique_seq_to_set();
    vstd::seq_lib::seq_to_set_is_finite(s);
    assert(s.to_set() =~= idx.dom()) by {
        assert forall|a: u32| idx.dom().contains(a) implies s.to_set().contains(a) by {
            assert(s[idx[a] as int] == a);
        }
    }
}

/// A node for a new AS fits below the number of ASes that end a link.
proof fn lemma_new_node_fits(nodes: Seq<(u32, u64)>, idx: Map<u32, usize>, endpoints: Set<u32>, asn: u32)
    requires
        endpoints.finite(),
        node_index_agrees(nodes, idx),
        forall|a: u32| #[trigger] idx.contains_key(a) ==> endpoints.contains(a),
        endpoints.contains(asn),
        !idx.contains_key(asn),
    ensures
        nodes.len() + 1 <= endpoints.len(),
{
    let s = nodes.map_values(|n: (u32, u64)| n.0);
    assert(s.no_duplicates()) by {
        assert forall|i: int, j: int| 0 <= i < s.len() && 0 <= j < s.len() && i != j implies s[i] != s[j] by {
            assert(idx[nodes[i].0] == i);
            assert(idx[nodes[j].0] == j);
        }
    }
    s.unique_seq_to_set();
    vstd::seq_lib::seq_to_set_is_finite(s);
    let t = s.to_set().insert(asn);
    assert(!s.to_set().contains(asn)) by {
        if s.to_set().contains(asn) {
            let j = choose|j: int| 0 <= j < s.len() && s[j] == asn;
            assert(idx.contains_key(nodes[j].0));
        }
    }
    assert(t.subset_of(endpoints)) by {
        assert forall|a: u32| t.contains(a) implies endpoints.contains(a) by {
            if a != asn {
                let j = choose|j: int| 0 <= j < s.len() && s[j] == a;
                assert(idx.contains_key(nodes[j].0));
            }
        }
    }
    vstd::set_lib::lemma_len_subset(t, endpoints);
}

/// The sort keys of the nodes when ranking hubs: degree only.
pub open spec fn hub_keys(nodes: Seq<(u32, u64)>) -> Seq<(u64, u64)> {
    nodes.map_values(|n: (u32, u64)| (n.1, 0u64))
}

/// The ranking of the nodes by degree, highest first, equal degrees in
/// index order.
pub open spec fn hub_ranking(nodes: Seq<(u32, u64)>) -> Seq<usize> {
    choose|o: Seq<usize>| is_ranking(hub_keys(nodes), o)
}

/// The first `n` nodes of the ranking by degree: AS number and degree.
pub open spec fn top_hubs(nodes: Seq<(u32, u64)>, n: nat) -> Seq<(u32, u64)> {
    let o = hub_ranking(nodes);
    Seq::new(
        if n < nodes.len() {
            n
        } else {
            nodes.len()
        },
        |i: int| nodes[o[i] as int],
    )
}

/// The visited node indices of a flag list.
pub open spec fn flagged(v: Seq<bool>) -> Set<usize> {
    Set::new(|i: usize| i < v.len() && v[i as int])
}

/// The simple paths found by a depth-first walk from `cur`, reached along
/// `path` (the AS numbers so far) with `visited` already on the walk: the
/// path itself when it has two or more ASes, then, unless it has
/// `max_depth` ASes, the paths through each unvisited out-neighbor in the
/// graph's neighbor order. Nothing when `path` is longer than `max_depth`.
pub open spec fn dfs_spec(
    nodes: Seq<(u32, u64)>,
    edges: Seq<(usize, usize, u64)>,
    cur: usize,
    visited: Set<usize>,
    path: Seq<u32>,
    max_depth: nat,
) -> Seq<Seq<u32>>
    decreases max_depth - path.len(), 1nat, 0nat,
{
    if path.len() > max_depth {
        Seq::empty()
    } else {
        let here = if path.len() > 1 {
            seq![path]
        } else {
            Seq::empty()
        };
        if path.len() == max_depth {
            here
        } else {
            here + dfs_neighbors_spec(
                nodes,
                edges,
                out_neighbors(edges, cur),
                0,
                visited.insert(cur),
                path,
                max_depth,
            )
        }
    }
}

/// The paths through the neighbors `nbrs[k..]`, in order.
pub open spec fn dfs_neighbors_spec(
    nodes: Seq<(u32, u64)>,
    edges: Seq<(usize, usize, u64)>,
    nbrs: Seq<usize>,
    k: int,
    visited: Set<usize>,
    path: Seq<u32>,
    max_depth: nat,
) -> Seq<Seq<u32>>
    decreases max_depth - path.len(), 0nat, nbrs.len() - k,
{
    if k < 0 || k >= nbrs.len() || path.len() >= max_depth {
        Seq::empty()
    } else {
        let nb = nbrs[k];
        (if !visited.contains(nb) {
            dfs_spec(nodes, edges, nb, visited, path.push(nodes[nb as int].0), max_depth)
        } else {
            Seq::empty()
        }) + dfs_neighbors_spec(nodes, edges, nbrs, k + 1, visited, path, max_depth)
    }
}

pub open spec fn paths_view(v: Seq<Vec<u32>>) -> Seq<Seq<u32>> {
    v.map_values(|p: Vec<u32>| p@)
}

impl AsTopology {
    /// The `n` nodes of highest degree, highest first, nodes of equal degree
    /// in index order: AS number and degree.
    pub fn get_top_hubs(&self, n: usize) -> (r: Vec<(u32, u64)>)
        requires
            self.wf(),
        ensures
            is_ranking(hub_keys(self.nodes()), hub_ranking(self.nodes())),
            r@ == top_hubs(self.nodes(), n as nat),
            forall|i: int, j: int| 0 <= i < j < r@.len() ==> r@[i].1 >= r@[j].1,
    {
        let count = graph_node_count(&self.graph);
        let mut nodes: Vec<(u32, u64)> = Vec::new();
        let mut keys: Vec<(u64, u64)> = Vec::new();
        let mut i: usize = 0;
        while i < count
            invariant
                i <= count,
                count == self.nodes().len(),
                nodes@.len() == i,
                keys@.len() == i,
                forall|j: int| 0 <= j < i ==> #[trigger] nodes@[j] == self.nodes()[j],
                forall|j: int| 0 <= j < i ==> #[trigger] keys@[j] == (self.nodes()[j].1, 0u64),
            decreases count - i,
        {
            let node = graph_node(&self.graph, i);
            nodes.push((node.asn, node.degree));
            keys.push((node.degree, 0));
            i = i + 1;
        }
        assert(keys@ =~= hub_keys(self.nodes()));
        let order = rank_desc(&keys);
        let take = if n < count {
            n
        } else {
            count
        };
        let mut r: Vec<(u32, u64)> = Vec::new();
        let mut k: usize = 0;
        while k < take
            invariant
                k <= take,
                take <= count,
                count == self.nodes().len(),
                nodes@.len() == count,
                forall|j: int| 0 <= j < count ==> #[trigger] nodes@[j] == self.nodes()[j],
                is_ranking(hub_keys(self.nodes()), order@),
                r@.len() == k,
                forall|j: int| 0 <= j < k ==> #[trigger] r@[j] == self.nodes()[order@[j] as int],
            decreases take - k,
        {
            let idx = order[k];
            r.push(nodes[idx]);
            k = k + 1;
        }
        proof {
            let o = hub_ranking(self.nodes());
            assert(is_ranking(hub_keys(self.nodes()), o));
            lemma_ranking_unique(hub_keys(self.nodes()), o, order@);
            assert(r@ =~= top_hubs(self.nodes(), n as nat));
            assert forall|i: int, j: int| 0 <= i < j < r@.len() implies r@[i].1 >= r@[j].1 by {
                assert(crate::ranking::ranks_before(hub_keys(self.nodes()), order@[i] as int, order@[j] as int));
            }
        }
        r
    }

    /// The simple paths of two to `max_depth` ASes that a depth-first walk
    /// along outgoing edges finds from the node of `hub_asn` (see
    /// [`dfs_spec`]); none when the AS has no node.
    pub fn get_hub_paths(&self, hub_asn: u32, max_depth: usize) -> (r: Vec<Vec<u32>>)
        requires
            self.wf(),
        ensures
            paths_view(r@) == if self.index_of().contains_key(hub_asn) {
                dfs_spec(
                    self.nodes(),
                    self.edges(),
                    self.index_of()[hub_asn],
                    Set::empty(),
                    seq![hub_asn],
                    max_depth as nat,
                )
            } else {
                Seq::empty()
            },
            forall|k: int|
                0 <= k < r@.len() ==> {
                    let q = (#[trigger] r@[k])@;
                    &&& 2 <= q.len() <= max_depth
                    &&& q[0] == hub_asn
                    &&& q.no_duplicates()
                    &&& follows_edges(self.nodes(), self.edges(), q)
                },
    {
        let mut paths: Vec<Vec<u32>> = Vec::new();
        assert(paths_view(paths@) =~= Seq::empty());
        match self.asn_to_idx.get(&hub_asn) {
            Some(start) => {
                let start_idx = *start;
                assert(self.index_of().contains_key(hub_asn));
                let count = graph_node_count(&self.graph);
                let mut visited: Vec<bool> = Vec::new();
                let mut i: usize = 0;
                while i < count
                    invariant
                        i <= count,
                        visited@.len() == i,
                        forall|j: int| 0 <= j < i ==> !visited@[j],
                    decreases count - i,
                {
                    visited.push(false);
                    i = i + 1;
                }
                assert(flagged(visited@) =~= Set::empty());
                let mut current_path: Vec<u32> = Vec::new();
                current_path.push(hub_asn);
                Self::dfs_paths(
                    &self.graph,
                    start_idx,
                    &mut visited,
                    &mut current_path,
                    &mut paths,
                    max_depth,
                );
                assert(paths_view(paths@) =~= Seq::empty() + dfs_spec(
                    self.nodes(),
                    self.edges(),
                    start_idx,
                    Set::empty(),
                    seq![hub_asn],
                    max_depth as nat,
                ));
                proof {
                    lemma_dfs_paths_shape(self.nodes(), self.edges(), start_idx, Set::empty(), seq![hub_asn], max_depth as nat);
                    assert(distinct_node_asns(self.nodes())) by {
                        assert forall|i: int, j: int|
                            0 <= i < self.nodes().len() && 0 <= j < self.nodes().len() && i != j implies self.nodes()[i].0
                            != self.nodes()[j].0 by {
                            assert(self.index_of()[self.nodes()[i].0] == i);
                            assert(self.index_of()[self.nodes()[j].0] == j);
                        }
                    }
                    assert(seq![hub_asn].drop_last() =~= Seq::<u32>::empty());
                    assert(seq![hub_asn].no_duplicates());
                    lemma_dfs_paths_simple(self.nodes(), self.edges(), start_idx, Set::empty(), seq![hub_asn], max_depth as nat);
                    assert(follows_edges(self.nodes(), self.edges(), seq![hub_asn]));
                    lemma_dfs_paths_follow_edges(self.nodes(), self.edges(), start_idx, Set::empty(), seq![hub_asn], max_depth as nat);
                    assert forall|k: int| 0 <= k < paths@.len() implies {
                        let q = (#[trigger] paths@[k])@;
                        &&& 2 <= q.len() <= max_depth
                        &&& q[0] == hub_asn
                        &&& q.no_duplicates()
                        &&& follows_edges(self.nodes(), self.edges(), q)
                    } by {
                        let q = paths@[k]@;
                        assert(q == paths_view(paths@)[k]);
                        assert(q.take(1) == seq![hub_asn]);
                        assert(q[0] == q.take(1)[0]);
                    }
                }
            },
            None => {},
        }
        paths
    }

    fn dfs_paths(
        graph: &DiGraph<AsNode, AsEdge>,
        current: usize,
        visited: &mut Vec<bool>,
        current_path: &mut Vec<u32>,
        paths: &mut Vec<Vec<u32>>,
        max_depth: usize,
    )
        requires
            current < graph_nodes(*graph).len(),
            old(visited)@.len() == graph_nodes(*graph).len(),
            !old(visited)@[current as int],
            forall|k: int|
                0 <= k < graph_edges(*graph).len() ==> (#[trigger] graph_edges(*graph)[k]).1 < graph_nodes(
                    *graph,
                ).len(),
        ensures
            final(visited)@ == old(visited)@,
            final(current_path)@ == old(current_path)@,
            paths_view(final(paths)@) == paths_view(old(paths)@) + dfs_spec(
                graph_nodes(*graph),
                graph_edges(*graph),
                current,
                flagged(old(visited)@),
                old(current_path)@,
                max_depth as nat,
            ),
        decreases max_depth - old(current_path)@.len(),
    {
        let ghost nodes = graph_nodes(*graph);
        let ghost edges = graph_edges(*graph);
        let ghost vis0 = visited@;
        let ghost path0 = current_path@;
        let ghost paths0 = paths_view(paths@);
        if current_path.len() > max_depth {
            assert(paths_view(paths@) =~= paths0 + Seq::<Seq<u32>>::empty());
            return;
        }
        if current_path.len() > 1 {
            let copy = crate::valley_free::copy_u32s(current_path.as_slice());
            paths.push(copy);
        }
        let ghost here: Seq<Seq<u32>> = if path0.len() > 1 {
            seq![path0]
        } else {
            Seq::empty()
        };
        assert(paths_view(paths@) =~= paths0 + here);
        if current_path.len() == max_depth {
            return;
        }
        visited.set(current, true);
        let ghost vis1 = visited@;
        assert(flagged(vis1) =~= flagged(vis0).insert(current));
        let neighbors = graph_out_neighbors(graph, current);
        proof {
            lemma_out_neighbors_bound(edges, current, nodes.len() as int);
        }
        let mut k: usize = 0;
        while k < neighbors.len()
            invariant
                k <= neighbors@.len(),
                nodes == graph_nodes(*graph),
                edges == graph_edges(*graph),
                neighbors@ == out_neighbors(edges, current),
                forall|j: int| 0 <= j < neighbors@.len() ==> #[trigger] neighbors@[j] < nodes.len(),
                forall|j: int| 0 <= j < edges.len() ==> (#[trigger] edges[j]).1 < nodes.len(),
                visited@ == vis1,
                vis1.len() == nodes.len(),
                current_path@ == path0,
                old(current_path)@ == path0,
                path0.len() < max_depth,
                paths_view(paths@) + dfs_neighbors_spec(
                    nodes,
                    edges,
                    neighbors@,
                    k as int,
                    flagged(vis1),
                    path0,
                    max_depth as nat,
                ) == paths0 + here + dfs_neighbors_spec(
                    nodes,
                    edges,
                    neighbors@,
                    0,
                    flagged(vis1),
                    path0,
                    max_depth as nat,
                ),
            decreases neighbors@.len() - k,
        {
            let nb = neighbors[k];
            let ghost before = paths_view(paths@);
            if !visited[nb] {
                let node = graph_node(graph, nb);
                current_path.push(node.asn);
                Self::dfs_paths(graph, nb, visited, current_path, paths, max_depth);
                current_path.pop();
                assert(current_path@ =~= path0);
                assert(!flagged(vis1).contains(nb));
            } else {
                assert(flagged(vis1).contains(nb));
            }
            proof {
                let rest = dfs_neighbors_spec(nodes, edges, neighbors@, k + 1, flagged(vis1), path0, max_depth as nat);
                let cur_part = dfs_neighbors_spec(nodes, edges, neighbors@, k as int, flagged(vis1), path0, max_depth as nat);
                let step: Seq<Seq<u32>> = if !flagged(vis1).contains(nb) {
                    dfs_spec(nodes, edges, nb, flagged(vis1), path0.push(nodes[nb as int].0), max_depth as nat)
                } else {
                    Seq::empty()
                };
                assert(cur_part == step + rest);
                assert(paths_view(paths@) =~= before + step);
                assert(before + cur_part =~= paths_view(paths@) + rest);
            }
            k = k + 1;
        }
        visited.set(current, false);
        assert(visited@ =~= vis0);
        proof {
            assert(dfs_neighbors_spec(nodes, edges, neighbors@, k as int, flagged(vis1), path0, max_depth as nat) =~= Seq::empty());
            assert(paths_view(paths@) =~= paths0 + dfs_spec(nodes, edges, current, flagged(vis0), path0, max_depth as nat));
        }
    }

    /// Looks both ASes up and runs a shortest-path search between them,
    /// whose result is dropped: the answer is always `None`.
    pub fn compute_shortest_path(&self, from_asn: u32, to_asn: u32) -> (r: Option<Vec<u32>>)
        requires
            self.wf(),
        ensures
            r is None,
    {
        let from_idx = match self.asn_to_idx.get(&from_asn) {
            Some(i) => *i,
            None => return None,
        };
        let to_idx = match self.asn_to_idx.get(&to_asn) {
            Some(i) => *i,
            None => return None,
        };
        assert(self.index_of().contains_key(from_asn));
        assert(self.index_of().contains_key(to_asn));
        graph_run_dijkstra(&self.graph, from_idx, to_idx);
        None
    }

    /// Number of nodes.
    pub fn node_count(&self) -> (r: usize)
        ensures
            r == self.nodes().len(),
    {
        graph_node_count(&self.graph)
    }

    /// Number of edges.
    pub fn edge_count(&self) -> (r: usize)
        ensures
            r == self.edges().len(),
    {
        graph_edge_count(&self.graph)
    }

    /// The degree recorded on the node of `asn`, if it has one.
    pub fn node_degree(&self, asn: u32) -> (r: Option<u64>)
        requires
            self.wf(),
        ensures
            r == if self.index_of().contains_key(asn) {
                Some(self.nodes()[self.index_of()[asn] as int].1)
            } else {
                None::<u64>
            },
    {
        match self.asn_to_idx.get(&asn) {
            Some(i) => {
                assert(self.index_of().contains_key(asn));
                let node = graph_node(&self.graph, *i);
                Some(node.degree)
            },
            None => None,
        }
    }

    /// Number of edges leaving the node of `asn`, if it has one.
    pub fn out_degree(&self, asn: u32) -> (r: Option<usize>)
        requires
            self.wf(),
        ensures
            match r {
                Some(n) => self.index_of().contains_key(asn) && n == out_neighbors(
                    self.edges(),
                    self.index_of()[asn],
                ).len(),
                None => !self.index_of().contains_key(asn),
            },
    {
        match self.asn_to_idx.get(&asn) {
            Some(i) => {
                assert(self.index_of().contains_key(asn));
                Some(graph_out_neighbors(&self.graph, *i).len())
            },
            None => None,
        }
    }

    /// Number of edges entering the node of `asn`, if it has one.
    pub fn in_degree(&self, asn: u32) -> (r: Option<usize>)
        requires
            self.wf(),
        ensures
            match r {
                Some(n) => self.index_of().contains_key(asn) && n == in_neighbors(
                    self.edges(),
                    self.index_of()[asn],
                ).len(),
                None => !self.index_of().contains_key(asn),
            },
    {
        match self.asn_to_idx.get(&asn) {
            Some(i) => {
                assert(self.index_of().contains_key(asn));
                Some(graph_in_neighbors(&self.graph, *i).len())
            },
            None => None,
        }
    }
}

/// Out-neighbors are nodes when every edge target is.
proof fn lemma_out_neighbors_bound(edges: Seq<(usize, usize, u64)>, i: usize, n: int)
    requires
        forall|k: int| 0 <= k < edges.len() ==> (#[trigger] edges[k]).1 < n,
    ensures
        forall|j: int| 0 <= j < out_neighbors(edges, i).len() ==> #[trigger] out_neighbors(edges, i)[j] < n,
    decreases edges.len(),
{
    if edges.len() > 0 {
        let d = edges.drop_last();
        assert forall|k: int| 0 <= k < d.len() implies (#[trigger] d[k]).1 < n by {
            assert(d[k] == edges[k]);
        }
        lemma_out_neighbors_bound(d, i, n);
        let e = edges.last();
        assert(edges[edges.len() - 1].1 < n);
        let first: Seq<usize> = if e.0 == i {
            seq![e.1]
        } else {
            Seq::empty()
        };
        assert(out_neighbors(edges, i) == first + out_neighbors(d, i));
        assert forall|j: int| 0 <= j < out_neighbors(edges, i).len() implies #[trigger] out_neighbors(edges, i)[j] < n by {
            if j >= first.len() {
                assert(out_neighbors(edges, i)[j] == out_neighbors(d, i)[j - first.len()]);
            }
        }
    }
}

/// Every path a depth-first walk finds extends the path it started from,
/// and has two to `max_depth` ASes.
pub proof fn lemma_dfs_paths_shape(
    nodes: Seq<(u32, u64)>,
    edges: Seq<(usize, usize, u64)>,
    cur: usize,
    visited: Set<usize>,
    path: Seq<u32>,
    max_depth: nat,
)
    requires
        path.len() >= 1,
    ensures
        forall|k: int|
            0 <= k < dfs_spec(nodes, edges, cur, visited, path, max_depth).len() ==> {
                let q = #[trigger] dfs_spec(nodes, edges, cur, visited, path, max_depth)[k];
                &&& 2 <= q.len() <= max_depth
                &&& path.len() <= q.len()
                &&& q.take(path.len() as int) == path
            },
    decreases max_depth - path.len(), 1nat, 0nat,
{
    if path.len() <= max_depth {
        let here: Seq<Seq<u32>> = if path.len() > 1 {
            seq![path]
        } else {
            Seq::empty()
        };
        assert(path.take(path.len() as int) =~= path);
        if path.len() < max_depth {
            let rest = dfs_neighbors_spec(nodes, edges, out_neighbors(edges, cur), 0, visited.insert(cur), path, max_depth);
            lemma_dfs_neighbors_shape(nodes, edges, out_neighbors(edges, cur), 0, visited.insert(cur), path, max_depth);
            let all = dfs_spec(nodes, edges, cur, visited, path, max_depth);
            assert(all == here + rest);
            assert forall|k: int| 0 <= k < all.len() implies {
                let q = #[trigger] all[k];
                &&& 2 <= q.len() <= max_depth
                &&& path.len() <= q.len()
                &&& q.take(path.len() as int) == path
            } by {
                if k >= here.len() {
                    assert(all[k] == rest[k - here.len()]);
                }
            }
        }
    }
}

/// Every path found through the neighbors `nbrs[k..]` extends `path` by at
/// least one AS, and has two to `max_depth` ASes.
pub proof fn lemma_dfs_neighbors_shape(
    nodes: Seq<(u32, u64)>,
    edges: Seq<(usize, usize, u64)>,
    nbrs: Seq<usize>,
    k: int,
    visited: Set<usize>,
    path: Seq<u32>,
    max_depth: nat,
)
    requires
        path.len() >= 1,
    ensures
        forall|i: int|
            0 <= i < dfs_neighbors_spec(nodes, edges, nbrs, k, visited, path, max_depth).len() ==> {
                let q = #[trigger] dfs_neighbors_spec(nodes, edges, nbrs, k, visited, path, max_depth)[i];
                &&& 2 <= q.len() <= max_depth
                &&& path.len() < q.len()
                &&& q.take(path.len() as int) == path
            },
    decreases max_depth - path.len(), 0nat, nbrs.len() - k,
{
    if !(k < 0 || k >= nbrs.len() || path.len() >= max_depth) {
        let nb = nbrs[k];
        let longer = path.push(nodes[nb as int].0);
        let first: Seq<Seq<u32>> = if !visited.contains(nb) {
            dfs_spec(nodes, edges, nb, visited, longer, max_depth)
        } else {
            Seq::empty()
        };
        let rest = dfs_neighbors_spec(nodes, edges, nbrs, k + 1, visited, path, max_depth);
        if !visited.contains(nb) {
            lemma_dfs_paths_shape(nodes, edges, nb, visited, longer, max_depth);
        }
        lemma_dfs_neighbors_shape(nodes, edges, nbrs, k + 1, visited, path, max_depth);
        let all = dfs_neighbors_spec(nodes, edges, nbrs, k, visited, path, max_depth);
        assert(all == first + rest);
        assert forall|i: int| 0 <= i < all.len() implies {
            let q = #[trigger] all[i];
            &&& 2 <= q.len() <= max_depth
            &&& path.len() < q.len()
            &&& q.take(path.len() as int) == path
        } by {
            if i < first.len() {
                let q = first[i];
                assert(q.take(longer.len() as int) == longer);
                assert(q.take(path.len() as int) =~= longer.take(path.len() as int));
                assert(longer.take(path.len() as int) =~= path);
            } else {
                assert(all[i] == rest[i - first.len()]);
            }
        }
    }
}

/// No two nodes carry the same AS number.
pub open spec fn distinct_node_asns(nodes: Seq<(u32, u64)>) -> bool {
    forall|i: int, j: int| 0 <= i < nodes.len() && 0 <= j < nodes.len() && i != j ==> nodes[i].0 != nodes[j].0
}

/// The walk state is consistent: the nodes already on the walk are exactly
/// those whose AS is on `on_path`.
pub open spec fn walk_consistent(nodes: Seq<(u32, u64)>, visited: Set<usize>, on_path: Seq<u32>) -> bool {
    &&& forall|v: usize| #[trigger] visited.contains(v) ==> v < nodes.len()
    &&& forall|v: usize| v < nodes.len() ==> (on_path.contains(#[trigger] nodes[v as int].0) <==> visited.contains(v))
}

/// Every path a depth-first walk finds is simple: no AS occurs twice on it.
pub proof fn lemma_dfs_paths_simple(
    nodes: Seq<(u32, u64)>,
    edges: Seq<(usize, usize, u64)>,
    cur: usize,
    visited: Set<usize>,
    path: Seq<u32>,
    max_depth: nat,
)
    requires
        distinct_node_asns(nodes),
        forall|k: int| 0 <= k < edges.len() ==> (#[trigger] edges[k]).1 < nodes.len(),
        cur < nodes.len(),
        path.len() >= 1,
        path.last() == nodes[cur as int].0,
        path.no_duplicates(),
        !visited.contains(cur),
        walk_consistent(nodes, visited, path.drop_last()),
    ensures
        forall|k: int|
            0 <= k < dfs_spec(nodes, edges, cur, visited, path, max_depth).len() ==> (#[trigger] dfs_spec(
                nodes,
                edges,
                cur,
                visited,
                path,
                max_depth,
            )[k]).no_duplicates(),
    decreases max_depth - path.len(), 1nat, 0nat,
{
    if path.len() <= max_depth {
        let here: Seq<Seq<u32>> = if path.len() > 1 {
            seq![path]
        } else {
            Seq::empty()
        };
        if path.len() < max_depth {
            let v2 = visited.insert(cur);
            assert(walk_consistent(nodes, v2, path)) by {
                assert forall|v: usize| v < nodes.len() implies (path.contains(#[trigger] nodes[v as int].0)
                    <==> v2.contains(v)) by {
                    if path.contains(nodes[v as int].0) {
                        let j = choose|j: int| 0 <= j < path.len() && path[j] == nodes[v as int].0;
                        if j < path.len() - 1 {
                            assert(path.drop_last()[j] == nodes[v as int].0);
                        } else if v != cur {
                            assert(nodes[v as int].0 != nodes[cur as int].0);
                        }
                    }
                    if v2.contains(v) {
                        if v == cur {
                            assert(path[path.len() - 1] == nodes[v as int].0);
                        } else {
                            assert(path.drop_last().contains(nodes[v as int].0));
                            let j = choose|j: int| 0 <= j < path.drop_last().len() && path.drop_last()[j] == nodes[v as int].0;
                            assert(path[j] == nodes[v as int].0);
                        }
                    }
                }
            }
            let nbrs = out_neighbors(edges, cur);
            lemma_out_neighbors_bound(edges, cur, nodes.len() as int);
            lemma_dfs_neighbors_simple(nodes, edges, nbrs, 0, v2, path, max_depth);
            let rest = dfs_neighbors_spec(nodes, edges, nbrs, 0, v2, path, max_depth);
            let all = dfs_spec(nodes, edges, cur, visited, path, max_depth);
            assert(all == here + rest);
            assert forall|k: int| 0 <= k < all.len() implies (#[trigger] all[k]).no_duplicates() by {
                if k >= here.len() {
                    assert(all[k] == rest[k - here.len()]);
                }
            }
        }
    }
}

/// Every path found through the neighbors `nbrs[k..]` is simple.
pub proof fn lemma_dfs_neighbors_simple(
    nodes: Seq<(u32, u64)>,
    edges: Seq<(usize, usize, u64)>,
    nbrs: Seq<usize>,
    k: int,
    visited: Set<usize>,
    path: Seq<u32>,
    max_depth: nat,
)
    requires
        distinct_node_asns(nodes),
        forall|i: int| 0 <= i < edges.len() ==> (#[trigger] edges[i]).1 < nodes.len(),
        forall|i: int| 0 <= i < nbrs.len() ==> #[trigger] nbrs[i] < nodes.len(),
        path.len() >= 1,
        path.no_duplicates(),
        walk_consistent(nodes, visited, path),
    ensures
        forall|i: int|
            0 <= i < dfs_neighbors_spec(nodes, edges, nbrs, k, visited, path, max_depth).len() ==> (
            #[trigger] dfs_neighbors_spec(nodes, edges, nbrs, k, visited, path, max_depth)[i]).no_duplicates(),
    decreases max_depth - path.len(), 0nat, nbrs.len() - k,
{
    if !(k < 0 || k >= nbrs.len() || path.len() >= max_depth) {
        let nb = nbrs[k];
        let longer = path.push(nodes[nb as int].0);
        let first: Seq<Seq<u32>> = if !visited.contains(nb) {
            dfs_spec(nodes, edges, nb, visited, longer, max_depth)
        } else {
            Seq::empty()
        };
        if !visited.contains(nb) {
            assert(!path.contains(nodes[nb as int].0));
            assert(longer.no_duplicates()) by {
                assert forall|a: int, b: int| 0 <= a < b < longer.len() implies longer[a] != longer[b] by {
                    if b == longer.len() - 1 {
                        assert(longer[a] == path[a]);
                    } else {
                        assert(longer[a] == path[a] && longer[b] == path[b]);
                    }
                }
            }
            assert(longer.drop_last() =~= path);
            lemma_dfs_paths_simple(nodes, edges, nb, visited, longer, max_depth);
        }
        lemma_dfs_neighbors_simple(nodes, edges, nbrs, k + 1, visited, path, max_depth);
        let rest = dfs_neighbors_spec(nodes, edges, nbrs, k + 1, visited, path, max_depth);
        let all = dfs_neighbors_spec(nodes, edges, nbrs, k, visited, path, max_depth);
        assert(all == first + rest);
        assert forall|i: int| 0 <= i < all.len() implies (#[trigger] all[i]).no_duplicates() by {
            if i >= first.len() {
                assert(all[i] == rest[i - first.len()]);
            }
        }
    }
}

/// Each AS of `path` after the first is reached from the one before it by
/// an edge of the graph.
pub open spec fn follows_edges(nodes: Seq<(u32, u64)>, edges: Seq<(usize, usize, u64)>, path: Seq<u32>) -> bool {
    forall|i: int|
        0 <= i < path.len() - 1 ==> exists|k: int|
            0 <= k < edges.len() && nodes[edges[k].0 as int].0 == #[trigger] path[i] && nodes[edges[k].1 as int].0
                == path[i + 1]
}

/// An out-neighbor of node `i` is the target of an edge leaving `i`.
proof fn lemma_out_neighbor_edge(edges: Seq<(usize, usize, u64)>, i: usize, j: int)
    requires
        0 <= j < out_neighbors(edges, i).len(),
    ensures
        exists|k: int| 0 <= k < edges.len() && edges[k].0 == i && edges[k].1 == out_neighbors(edges, i)[j],
    decreases edges.len(),
{
    let e = edges.last();
    let d = edges.drop_last();
    let first: Seq<usize> = if e.0 == i {
        seq![e.1]
    } else {
        Seq::empty()
    };
    assert(out_neighbors(edges, i) == first + out_neighbors(d, i));
    if j < first.len() {
        assert(edges[edges.len() - 1] == e);
    } else {
        assert(out_neighbors(edges, i)[j] == out_neighbors(d, i)[j - first.len()]);
        lemma_out_neighbor_edge(d, i, j - first.len());
        let k = choose|k: int| 0 <= k < d.len() && d[k].0 == i && d[k].1 == out_neighbors(d, i)[j - first.len()];
        assert(edges[k] == d[k]);
    }
}

/// Every path a depth-first walk finds follows edges of the graph.
pub proof fn lemma_dfs_paths_follow_edges(
    nodes: Seq<(u32, u64)>,
    edges: Seq<(usize, usize, u64)>,
    cur: usize,
    visited: Set<usize>,
    path: Seq<u32>,
    max_depth: nat,
)
    requires
        path.len() >= 1,
        path.last() == nodes[cur as int].0,
        follows_edges(nodes, edges, path),
    ensures
        forall|k: int|
            0 <= k < dfs_spec(nodes, edges, cur, visited, path, max_depth).len() ==> follows_edges(
                nodes,
                edges,
                #[trigger] dfs_spec(nodes, edges, cur, visited, path, max_depth)[k],
            ),
    decreases max_depth - path.len(), 1nat, 0nat,
{
    if path.len() <= max_depth {
        let here: Seq<Seq<u32>> = if path.len() > 1 {
            seq![path]
        } else {
            Seq::empty()
        };
        if path.len() < max_depth {
            let v2 = visited.insert(cur);
            let nbrs = out_neighbors(edges, cur);
            lemma_dfs_neighbors_follow_edges(nodes, edges, cur, 0, v2, path, max_depth);
            let rest = dfs_neighbors_spec(nodes, edges, nbrs, 0, v2, path, max_depth);
            let all = dfs_spec(nodes, edges, cur, visited, path, max_depth);
            assert(all == here + rest);
            assert forall|k: int| 0 <= k < all.len() implies follows_edges(nodes, edges, #[trigger] all[k]) by {
                if k >= here.len() {
                    assert(all[k] == rest[k - here.len()]);
                }
            }
        }
    }
}

/// Every path found through the out-neighbors of `cur` from the `k`-th on
/// follows edges of the graph.
pub proof fn lemma_dfs_neighbors_follow_edges(
    nodes: Seq<(u32, u64)>,
    edges: Seq<(usize, usize, u64)>,
    cur: usize,
    k: int,
    visited: Set<usize>,
    path: Seq<u32>,
    max_depth: nat,
)
    requires
        path.len() >= 1,
        path.last() == nodes[cur as int].0,
        follows_edges(nodes, edges, path),
    ensures
        forall|i: int|
            0 <= i < dfs_neighbors_spec(nodes, edges, out_neighbors(edges, cur), k, visited, path, max_depth).len()
                ==> follows_edges(
                nodes,
                edges,
                #[trigger] dfs_neighbors_spec(nodes, edges, out_neighbors(edges, cur), k, visited, path, max_depth)[i],
            ),
    decreases max_depth - path.len(), 0nat, out_neighbors(edges, cur).len() - k,
{
    let nbrs = out_neighbors(edges, cur);
    if !(k < 0 || k >= nbrs.len() || path.len() >= max_depth) {
        let nb = nbrs[k];
        let longer = path.push(nodes[nb as int].0);
        let first: Seq<Seq<u32>> = if !visited.contains(nb) {
            dfs_spec(nodes, edges, nb, visited, longer, max_depth)
        } else {
            Seq::empty()
        };
        if !visited.contains(nb) {
            lemma_out_neighbor_edge(edges, cur, k);
            let e = choose|e: int| 0 <= e < edges.len() && edges[e].0 == cur && edges[e].1 == nb;
            assert(follows_edges(nodes, edges, longer)) by {
                assert forall|i: int| 0 <= i < longer.len() - 1 implies exists|k2: int|
                    0 <= k2 < edges.len() && nodes[edges[k2].0 as int].0 == #[trigger] longer[i]
                        && nodes[edges[k2].1 as int].0 == longer[i + 1] by {
                    if i == longer.len() - 2 {
                        assert(longer[i] == path.last());
                        assert(nodes[edges[e].0 as int].0 == longer[i]);
                    } else {
                        assert(longer[i] == path[i]);
                        assert(longer[i + 1] == path[i + 1]);
                    }
                }
            }
            lemma_dfs_paths_follow_edges(nodes, edges, nb, visited, longer, max_depth);
        }
        lemma_dfs_neighbors_follow_edges(nodes, edges, cur, k + 1, visited, path, max_depth);
        let rest = dfs_neighbors_spec(nodes, edges, nbrs, k + 1, visited, path, max_depth);
        let all = dfs_neighbors_spec(nodes, edges, nbrs, k, visited, path, max_depth);
        assert(all == first + rest);
        assert forall|i: int| 0 <= i < all.len() implies follows_edges(nodes, edges, #[trigger] all[i]) by {
            if i >= first.len() {
                assert(all[i] == rest[i - first.len()]);
            }
        }
    }
}

} // verus!
