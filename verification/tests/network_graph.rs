use neat::edge_data::EdgeData;
use neat::innovation_record::InnovationRecord;
use neat::network::network_graph::NetworkGraph;
use neat::node_data::NodeData;
use neat::node_kind::NodeKind;
use neat::scalar::{Arithmetic, Scalar};
use rand::distributions::{Distribution, Open01, Uniform};
use rand::rngs::StdRng;
use rand::SeedableRng;

fn num(x: f64) -> Scalar {
    Scalar::from_bits(x.to_bits())
}

fn float(x: Scalar) -> f64 {
    f64::from_bits(x.to_bits())
}

struct Floats;

impl Arithmetic for Floats {
    fn plus(&self, a: Scalar, b: Scalar) -> Scalar {
        num(float(a) + float(b))
    }

    fn minus(&self, a: Scalar, b: Scalar) -> Scalar {
        num(float(a) - float(b))
    }

    fn times(&self, a: Scalar, b: Scalar) -> Scalar {
        num(float(a) * float(b))
    }

    fn over(&self, a: Scalar, b: Scalar) -> Scalar {
        num(float(a) / float(b))
    }

    fn exp(&self, x: Scalar) -> Scalar {
        num(std::f64::consts::E.powf(float(x)))
    }

    fn tanh(&self, x: Scalar) -> Scalar {
        num(float(x).tanh())
    }

    fn from_count(&self, n: usize) -> Scalar {
        num(n as f64)
    }

    fn floor_count(&self, x: Scalar) -> usize {
        float(x).floor() as usize
    }

    fn ceil_count(&self, x: Scalar) -> usize {
        float(x).ceil() as usize
    }

    fn open01(&self, rng: &mut StdRng) -> Scalar {
        num(Open01.sample(rng))
    }

    fn uniform(&self, low: Scalar, high: Scalar, rng: &mut StdRng) -> Scalar {
        num(Uniform::new(float(low), float(high)).sample(rng))
    }
}

fn nodes_of(graph: &NetworkGraph) -> Vec<NodeData> {
    (0..graph.node_count()).map(|i| graph.node(i)).collect()
}

fn ends_of(graph: &NetworkGraph) -> Vec<(usize, usize)> {
    (0..graph.edge_count()).map(|e| graph.edge_endpoints(e)).collect()
}

fn innovations_of(graph: &NetworkGraph) -> Vec<usize> {
    (0..graph.edge_count()).map(|e| graph.edge(e).innov_number()).collect()
}

fn nodes_from(kinds: &[NodeKind]) -> Vec<NodeData> {
    kinds.iter().enumerate().map(|(i, &kind)| NodeData::new(kind, i)).collect()
}

#[test]
fn nodes_should_fully_connect_on_initialization() {
    let input_number = 2;
    let output_number = 2;
    let mut innov_record = InnovationRecord::new(input_number, output_number);
    let network = NetworkGraph::new(input_number, output_number, &mut innov_record);

    let nodes = nodes_from(&[
        NodeKind::Input,
        NodeKind::Input,
        NodeKind::Output,
        NodeKind::Output,
        NodeKind::Bias,
    ]);
    assert_eq!(nodes_of(&network), nodes);
    assert_eq!(ends_of(&network), vec![(0, 2), (0, 3), (1, 2), (1, 3)]);
}

#[test]
fn all_input_output_bias_nodes_should_be_assigned_same_id() {
    let input_number = 2;
    let output_number = 1;
    let mut innov_record = InnovationRecord::new(input_number, output_number);

    let network1 = NetworkGraph::new(input_number, output_number, &mut innov_record);
    let network2 = NetworkGraph::new(input_number, output_number, &mut innov_record);

    let nodes = nodes_from(&[NodeKind::Input, NodeKind::Input, NodeKind::Output, NodeKind::Bias]);
    assert_eq!(nodes_of(&network1), nodes);
    assert_eq!(ends_of(&network1), vec![(0, 2), (1, 2)]);
    assert_eq!(nodes_of(&network2), nodes);
    assert_eq!(ends_of(&network2), vec![(0, 2), (1, 2)]);
}

#[test]
fn input_nodes_should_be_returned() {
    let input_number = 5;
    let output_number = 1;
    let mut innov_record = InnovationRecord::new(input_number, output_number);
    let mut network = NetworkGraph::new(input_number, output_number, &mut innov_record);
    let input_nodes = network.input_nodes_mut();

    assert_eq!(
        input_nodes,
        vec![
            NodeData::new(NodeKind::Input, 0),
            NodeData::new(NodeKind::Input, 1),
            NodeData::new(NodeKind::Input, 2),
            NodeData::new(NodeKind::Input, 3),
            NodeData::new(NodeKind::Input, 4),
        ]
    )
}

#[test]
fn add_node_should_split_edge() {
    let input_number = 2;
    let output_number = 1;
    let mut innov_record = InnovationRecord::new(input_number, output_number);
    let mut network = NetworkGraph::new(input_number, output_number, &mut innov_record);
    network.add_node(0, &mut innov_record);

    let nodes = nodes_from(&[
        NodeKind::Input,
        NodeKind::Input,
        NodeKind::Output,
        NodeKind::Bias,
        NodeKind::Hidden,
    ]);
    assert_eq!(nodes_of(&network), nodes);
    assert_eq!(ends_of(&network), vec![(0, 2), (1, 2), (0, 4), (4, 2)]);
}

#[test]
fn add_connection_should_connect_nodes() {
    let input_number = 2;
    let output_number = 1;
    let mut innov_record = InnovationRecord::new(input_number, output_number);
    let mut network = NetworkGraph::new(input_number, output_number, &mut innov_record);
    network.add_node(0, &mut innov_record);

    let result = network.add_connection(1, 4, num(0.0), &mut innov_record);

    assert_eq!(result, 4);

    let nodes = nodes_from(&[
        NodeKind::Input,
        NodeKind::Input,
        NodeKind::Output,
        NodeKind::Bias,
        NodeKind::Hidden,
    ]);
    assert_eq!(nodes_of(&network), nodes);
    assert_eq!(ends_of(&network), vec![(0, 2), (1, 2), (0, 4), (4, 2), (1, 4)]);
}

#[test]
fn crossover_should_pass_only_from_more_fit_parent() {
    let input_number = 2;
    let output_number = 1;
    let mut innov_record = InnovationRecord::new(input_number, output_number);

    let mut network1 = NetworkGraph::new(input_number, output_number, &mut innov_record);
    let mut network2 = NetworkGraph::new(input_number, output_number, &mut innov_record);

    network1.add_node(0, &mut innov_record);
    network2.add_node(1, &mut innov_record);

    let mut rng = StdRng::seed_from_u64(7);
    let offspring = network1.crossover(&network2, true, &mut rng).unwrap();

    let nodes = nodes_from(&[
        NodeKind::Input,
        NodeKind::Input,
        NodeKind::Output,
        NodeKind::Bias,
        NodeKind::Hidden,
    ]);
    assert_eq!(nodes_of(&offspring), nodes);
    assert_eq!(ends_of(&offspring), vec![(0, 2), (1, 2), (0, 4), (4, 2)]);
}

#[test]
fn compatibility_metric_of_two_same_networks_is_zero() {
    let input_number = 2;
    let output_number = 1;
    let mut innov_record = InnovationRecord::new(input_number, output_number);

    let network1 = NetworkGraph::new(input_number, output_number, &mut innov_record);
    let network2 = NetworkGraph::new(input_number, output_number, &mut innov_record);

    assert_eq!(float(network1.compatibility_metric(&network2, num(1.0), num(1.0), &Floats)), 0.0);
}

#[test]
fn compatibility_metric_should_be_calculated_correctly() {
    let input_number = 2;
    let output_number = 1;

    let mut innov_record = InnovationRecord::new(input_number, output_number);

    let network1 = NetworkGraph::new(input_number, output_number, &mut innov_record);
    let mut network2 = NetworkGraph::new(input_number, output_number, &mut innov_record);

    network2.add_node(0, &mut innov_record);
    network2.edge_mut(1).set_weight(num(2.0));

    assert_eq!(
        float(network1.compatibility_metric(&network2, num(1.0), num(2.0), &Floats)),
        2.0 / 4.0 * 1.0 + 1.0 * 2.0
    );
}

#[test]
fn fresh_network_has_no_cycle_and_weights_of_one() {
    let mut innov_record = InnovationRecord::new(3, 2);
    let network = NetworkGraph::new(3, 2, &mut innov_record);
    assert!(!network.has_cycle());
    assert_eq!(network.edge_count(), 6);
    for e in 0..network.edge_count() {
        assert_eq!(network.edge(e), EdgeData::new(num(1.0), e));
    }
    assert!(!network.has_connection(3, 0));
    assert!(network.has_connection(2, 4));
    assert!(!network.has_connection(5, 3));
    assert!(!network.has_connection(17, 3));
}

#[test]
fn innovation_numbers_are_shared_between_genomes() {
    let mut innov_record = InnovationRecord::new(2, 1);
    let mut network1 = NetworkGraph::new(2, 1, &mut innov_record);
    let mut network2 = NetworkGraph::new(2, 1, &mut innov_record);
    assert_eq!(innovations_of(&network1), vec![0, 1]);
    assert_eq!(innovations_of(&network2), vec![0, 1]);

    // the second genome joins 1 to 2 through a new node, the first 0 to 2
    assert_eq!(network2.add_node(1, &mut innov_record), 4);
    assert_eq!(network2.node(4).id(), 4);
    assert_eq!(innovations_of(&network2), vec![0, 1, 2, 3]);
    assert_eq!(network1.add_node(0, &mut innov_record), 4);
    assert_eq!(network1.node(4).id(), 5);
    assert_eq!(innovations_of(&network1), vec![0, 1, 4, 5]);

    // joining input 0 to the same hidden node id gives the same number in both
    let e1 = network1.add_connection(1, 4, num(0.5), &mut innov_record);
    assert_eq!(network1.edge(e1).innov_number(), 6);
    let e2 = network2.add_connection(0, 4, num(0.5), &mut innov_record);
    assert_eq!(network2.edge(e2).innov_number(), 7);
    let mut network3 = network1.clone();
    let e3 = network3.add_connection(3, 4, num(0.5), &mut innov_record);
    let e4 = network1.add_connection(3, 4, num(-0.5), &mut innov_record);
    assert_eq!(network3.edge(e3).innov_number(), network1.edge(e4).innov_number());
}

#[test]
fn add_node_keeps_weight_and_disables_old_edge() {
    let mut innov_record = InnovationRecord::new(2, 1);
    let mut network = NetworkGraph::new(2, 1, &mut innov_record);
    network.edge_mut(1).set_weight(num(-2.5));
    let node = network.add_node(1, &mut innov_record);
    assert_eq!(node, 4);
    assert_eq!(network.node(4), NodeData::new(NodeKind::Hidden, 4));
    assert!(network.edge(1).is_disabled());
    assert_eq!(float(network.edge(1).get_weight()), -2.5);
    assert_eq!(network.edge_endpoints(2), (1, 4));
    assert_eq!(float(network.edge(2).get_weight()), -2.5);
    assert!(!network.edge(2).is_disabled());
    assert_eq!(network.edge_endpoints(3), (4, 2));
    assert_eq!(float(network.edge(3).get_weight()), 1.0);
    assert!(!network.has_cycle());
}

#[test]
fn remove_connection_moves_last_edge_into_gap() {
    let mut innov_record = InnovationRecord::new(2, 2);
    let mut network = NetworkGraph::new(2, 2, &mut innov_record);
    network.remove_connetion(1);
    assert_eq!(ends_of(&network), vec![(0, 2), (1, 3), (1, 2)]);
    assert_eq!(innovations_of(&network), vec![0, 3, 2]);
    network.remove_connetion(9);
    assert_eq!(ends_of(&network), vec![(0, 2), (1, 3), (1, 2)]);
    network.remove_connetion(2);
    assert_eq!(ends_of(&network), vec![(0, 2), (1, 3)]);
}

#[test]
fn remove_node_bridges_the_ways_through_it() {
    let mut innov_record = InnovationRecord::new(2, 1);
    let mut network = NetworkGraph::new(2, 1, &mut innov_record);
    // 0 -> 4 -> 2 with weight 3 into the new node
    network.edge_mut(0).set_weight(num(3.0));
    network.add_node(0, &mut innov_record);
    // 1 -> 4 with weight 5
    network.add_connection(1, 4, num(5.0), &mut innov_record);
    // a second hidden node on 1 -> 2, which will take over index 4
    network.add_node(1, &mut innov_record);
    assert_eq!(network.degrees(4), (2, 1));

    network.remove_node(4, &mut innov_record);

    assert_eq!(
        nodes_of(&network),
        vec![
            NodeData::new(NodeKind::Input, 0),
            NodeData::new(NodeKind::Input, 1),
            NodeData::new(NodeKind::Output, 2),
            NodeData::new(NodeKind::Bias, 3),
            NodeData::new(NodeKind::Hidden, 5),
        ]
    );
    let mut ends = ends_of(&network);
    ends.sort();
    // left: 0->2 (off), 1->2 (off), 1->5, 5->2 renamed to node 4, and the bridges 0->2, 1->2
    assert_eq!(ends, vec![(0, 2), (0, 2), (1, 2), (1, 2), (1, 4), (4, 2)]);
    let mut bridge_weights: Vec<f64> = (0..network.edge_count())
        .filter(|&e| !network.edge(e).is_disabled() && network.edge_endpoints(e).1 == 2
            && network.edge_endpoints(e).0 < 2)
        .map(|e| float(network.edge(e).get_weight()))
        .collect();
    bridge_weights.sort_by(|a, b| a.partial_cmp(b).unwrap());
    assert_eq!(bridge_weights, vec![3.0, 5.0]);
    // a bridge from 0 to 2 carries the number of the pair (0, 2)
    for e in 0..network.edge_count() {
        if network.edge_endpoints(e) == (0, 2) {
            assert_eq!(network.edge(e).innov_number(), 0);
        }
    }
    assert!(!network.has_cycle());
}

#[test]
fn union_difference_lines_genes_up_by_innovation_number() {
    let mut innov_record = InnovationRecord::new(2, 1);
    let mut network1 = NetworkGraph::new(2, 1, &mut innov_record);
    let mut network2 = NetworkGraph::new(2, 1, &mut innov_record);
    network1.add_node(0, &mut innov_record);
    network2.add_node(1, &mut innov_record);
    network2.remove_connetion(0);
    // network1: innovations 0 1 2 3; network2: 5 1 4 (edge 3 moved into the gap)
    assert_eq!(innovations_of(&network2), vec![5, 1, 4]);
    let (matching, mine, theirs) = network1.union_difference(&network2);
    assert_eq!(matching, vec![(1, 1)]);
    assert_eq!(mine, vec![0, 2, 3]);
    assert_eq!(theirs, vec![0, 2]);
    assert_eq!(network1.matching_count(&network2), 1);
    let (mismatch, larger, weights) = network1.compatibility_parts(&network2);
    assert_eq!(mismatch, 5);
    assert_eq!(larger, 4);
    assert_eq!(weights, vec![(num(1.0), num(1.0))]);
}

#[test]
fn genome_aligned_with_itself_matches_every_gene() {
    let mut innov_record = InnovationRecord::new(2, 1);
    let mut network = NetworkGraph::new(2, 1, &mut innov_record);
    network.add_node(0, &mut innov_record);
    network.add_connection(1, 4, num(0.25), &mut innov_record);
    let (matching, mine, theirs) = network.union_difference(&network);
    assert_eq!(matching, vec![(0, 0), (1, 1), (2, 2), (3, 3), (4, 4)]);
    assert!(mine.is_empty());
    assert!(theirs.is_empty());
    assert_eq!(float(network.compatibility_metric(&network, num(1.0), num(0.4), &Floats)), 0.0);
}

#[test]
fn crossover_with_itself_keeps_the_connections() {
    let mut innov_record = InnovationRecord::new(2, 1);
    let mut network = NetworkGraph::new(2, 1, &mut innov_record);
    network.add_node(0, &mut innov_record);
    network.add_node(1, &mut innov_record);
    network.add_connection(4, 5, num(0.75), &mut innov_record);
    for more_fit in [true, false] {
        for picks in [vec![], vec![true; 7], vec![true, false, true, false, true, false, true]] {
            let child = network.crossover_with(&network, more_fit, &picks).unwrap();
            assert_eq!(child.edge_count(), network.edge_count());
            for e in 0..network.edge_count() {
                assert_eq!(child.edge(e), network.edge(e));
                let (s, t) = network.edge_endpoints(e);
                let (cs, ct) = child.edge_endpoints(e);
                assert_eq!(child.node(cs).id(), network.node(s).id());
                assert_eq!(child.node(ct).id(), network.node(t).id());
            }
            assert!(!child.has_cycle());
        }
    }
}

#[test]
fn crossover_takes_matching_genes_by_pick_and_rest_from_fitter() {
    let mut innov_record = InnovationRecord::new(2, 1);
    let mut network1 = NetworkGraph::new(2, 1, &mut innov_record);
    let mut network2 = NetworkGraph::new(2, 1, &mut innov_record);
    network1.edge_mut(0).set_weight(num(10.0));
    network1.edge_mut(1).set_weight(num(11.0));
    network2.edge_mut(0).set_weight(num(20.0));
    network2.edge_mut(1).set_weight(num(21.0));
    network2.add_node(1, &mut innov_record);

    let child = network1.crossover_with(&network2, false, &vec![true, false]).unwrap();
    assert_eq!(ends_of(&child), vec![(0, 2), (1, 2), (1, 4), (4, 2)]);
    assert_eq!(float(child.edge(0).get_weight()), 10.0);
    assert_eq!(float(child.edge(1).get_weight()), 21.0);
    assert!(child.edge(1).is_disabled());
    assert_eq!(child.node(4), NodeData::new(NodeKind::Hidden, 4));

    let child = network1.crossover_with(&network2, true, &vec![false, true]).unwrap();
    assert_eq!(ends_of(&child), vec![(0, 2), (1, 2)]);
    assert_eq!(float(child.edge(0).get_weight()), 20.0);
    assert_eq!(float(child.edge(1).get_weight()), 11.0);
    assert_eq!(child.node_count(), 4);
}

#[test]
fn crossover_of_different_sizes_gives_nothing() {
    let mut record_a = InnovationRecord::new(2, 1);
    let mut record_b = InnovationRecord::new(3, 1);
    let a = NetworkGraph::new(2, 1, &mut record_a);
    let b = NetworkGraph::new(3, 1, &mut record_b);
    let mut rng = StdRng::seed_from_u64(1);
    assert!(a.crossover(&b, true, &mut rng).is_none());
    assert!(a.crossover_with(&b, false, &vec![]).is_none());
}

#[test]
fn random_edge_of_empty_graph_is_nothing() {
    let network = NetworkGraph::new_disconnected(2, 1);
    let mut rng = StdRng::seed_from_u64(3);
    assert_eq!(network.random_edge(&mut rng), None);
    assert_eq!(network.node_count(), 4);
    for _ in 0..20 {
        assert!(network.random_node(&mut rng) < 4);
    }
    let mut innov_record = InnovationRecord::new(2, 1);
    let full = NetworkGraph::new(2, 1, &mut innov_record);
    for _ in 0..20 {
        assert!(full.random_edge(&mut rng).unwrap() < 2);
    }
}

#[test]
fn randomize_weights_stays_in_range_and_keeps_wiring() {
    let mut innov_record = InnovationRecord::new(3, 3);
    let mut network = NetworkGraph::new(3, 3, &mut innov_record);
    let before = ends_of(&network);
    let mut rng = StdRng::seed_from_u64(11);
    network.randomize_weights(num(-2.0), num(2.0), &Floats, &mut rng);
    assert_eq!(ends_of(&network), before);
    let mut changed = false;
    for e in 0..network.edge_count() {
        let w = float(network.edge(e).get_weight());
        assert!(-2.0 <= w && w < 2.0);
        changed = changed || w != 1.0;
        assert_eq!(network.edge(e).innov_number(), e);
    }
    assert!(changed);
}

#[test]
fn order_nodes_tells_cycles() {
    let mut innov_record = InnovationRecord::new(1, 1);
    let mut network = NetworkGraph::new(1, 1, &mut innov_record);
    network.add_node(0, &mut innov_record);
    assert!(network.order_nodes());
    network.add_connection(1, 3, num(1.0), &mut innov_record);
    assert!(network.has_cycle());
    assert!(!network.order_nodes());
    network.remove_connetion(3);
    assert!(!network.has_cycle());
    assert!(network.order_nodes());
}

#[test]
fn compatibility_weighs_extra_genes_and_weight_differences() {
    let mut innov_record = InnovationRecord::new(2, 1);
    let network1 = NetworkGraph::new(2, 1, &mut innov_record);
    let mut network2 = NetworkGraph::new(2, 1, &mut innov_record);
    // one gene more, and one shared gene whose weight differs by two
    network2.add_connection(3, 2, num(0.5), &mut innov_record);
    network2.edge_mut(0).set_weight(num(3.0));
    let edges = network1.edge_count() as f64;
    let expected = 1.0 / (edges + 1.0) + 4.0;
    assert_eq!(float(network1.compatibility_metric(&network2, num(1.0), num(2.0), &Floats)), expected);
    assert_eq!(float(network2.compatibility_metric(&network1, num(1.0), num(2.0), &Floats)), expected);
}

#[test]
fn clone_is_a_graph_of_its_own() {
    let mut innov_record = InnovationRecord::new(2, 1);
    let mut network = NetworkGraph::new(2, 1, &mut innov_record);
    network.add_node(1, &mut innov_record);
    let mut copy = network.clone();
    assert_eq!(nodes_of(&copy), nodes_of(&network));
    assert_eq!(ends_of(&copy), ends_of(&network));
    assert_eq!(innovations_of(&copy), innovations_of(&network));
    copy.remove_connetion(0);
    copy.add_node(0, &mut innov_record);
    copy.edge_mut(1).set_weight(num(9.0));
    copy.node_mut(0).add_input(num(1.0), &Floats);
    assert_eq!(network.edge_count(), 4);
    assert_eq!(network.node_count(), 5);
    assert_eq!(ends_of(&network), vec![(0, 2), (1, 2), (1, 4), (4, 2)]);
    assert_eq!(float(network.edge(1).get_weight()), 1.0);
    assert_eq!(network.node(0), NodeData::new(NodeKind::Input, 0));
    assert_eq!(copy.edge_count(), 5);
    copy.clear_sum();
    assert_eq!(copy.node(0), NodeData::new(NodeKind::Input, 0));
    copy.bias_node_mut().add_input(num(2.0), &Floats);
    assert_eq!(float(copy.node(3).input_sum), 2.0);
}

#[test]
fn genome_from_genes_seats_hidden_nodes_by_id() {
    let mut innov_record = InnovationRecord::new(2, 1);
    let mut network = NetworkGraph::new(2, 1, &mut innov_record);
    network.add_node(0, &mut innov_record);
    network.add_node(1, &mut innov_record);
    // the genes in another order: the node with id 5 is met first
    let genes = vec![
        network.endpoints(5),
        network.endpoints(2),
        network.endpoints(4),
        network.endpoints(3),
        network.endpoints(0),
    ];
    assert_eq!(genes[0].source.id(), 5);
    let built = NetworkGraph::from_genes(2, 1, &genes);
    assert_eq!(built.node_count(), 6);
    assert_eq!(built.node(4).id(), 5);
    assert_eq!(built.node(5).id(), 4);
    assert_eq!(ends_of(&built), vec![(4, 2), (0, 5), (1, 4), (5, 2), (0, 2)]);
    assert_eq!(innovations_of(&built), vec![5, 2, 4, 3, 0]);
    assert!(built.edge(4).is_disabled());
}

#[test]
fn new_connections_take_the_next_numbers_in_order() {
    let mut innov_record = InnovationRecord::new(2, 2);
    let first = NetworkGraph::new(2, 2, &mut innov_record);
    let pairs = [(0, 2), (0, 3), (1, 2), (1, 3)];
    for e in 0..4 {
        assert_eq!(first.edge_endpoints(e), pairs[e]);
        assert_eq!(first.edge(e).innov_number(), e);
    }
    assert_eq!(innov_record.connection_counter(), 4);
    // a second network finds every pair known
    let mut second = NetworkGraph::new(2, 2, &mut innov_record);
    for e in 0..4 {
        assert_eq!(second.edge(e).innov_number(), e);
    }
    assert_eq!(innov_record.connection_counter(), 4);
    // splitting asks for two numbers, first into the new node, then out of it
    let node = second.add_node(1, &mut innov_record);
    assert_eq!(second.node(node).id(), 5);
    assert_eq!(second.edge(4).innov_number(), 4);
    assert_eq!(second.edge(5).innov_number(), 5);
    assert_eq!(innov_record.connection_counter(), 6);
    // an unknown pair gets the counter, a known pair its old number
    let edge = second.add_connection(4, 2, num(0.5), &mut innov_record);
    assert_eq!(second.edge(edge).innov_number(), 6);
    let mut third = NetworkGraph::new(2, 2, &mut innov_record);
    let edge = third.add_connection(4, 2, num(0.25), &mut innov_record);
    assert_eq!(third.edge(edge).innov_number(), 6);
    assert_eq!(innov_record.connection_counter(), 7);
    // bridging a removed node asks for the number of the way around it
    second.remove_node(node, &mut innov_record);
    assert_eq!(innov_record.connection_counter(), 7);
    let mut found = false;
    for e in 0..second.edge_count() {
        if second.edge_endpoints(e) == (0, 3) && !second.edge(e).is_disabled() {
            assert_eq!(second.edge(e).innov_number(), 1);
            found = true;
        }
    }
    assert!(found);
}
