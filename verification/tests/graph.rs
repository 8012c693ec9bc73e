use dsp::bounded::{MAX_NODES, MAX_NODE_INPUTS};
use dsp::graph::{Node, RoutingGraph};

/// Builds a graph whose node `i` takes its inputs from `inputs[i]`.
fn graph(inputs: &[&[usize]]) -> RoutingGraph<usize> {
    let mut g = RoutingGraph::new(0, 1);
    for (i, ins) in inputs.iter().enumerate() {
        let mut node = Node::new(i);
        for &j in ins.iter() {
            assert!(node.add_input(j));
        }
        assert_eq!(g.add_node(node).ok(), Some(i));
    }
    g
}

/// The process order of `g`.
fn order(g: &RoutingGraph<usize>) -> Vec<usize> {
    (0..g.process_order_len()).map(|k| g.process_order_at(k)).collect()
}

/// Checks that `order` runs every node once, after all of its inputs.
fn assert_topological(inputs: &[&[usize]], order: &[usize]) {
    assert_eq!(order.len(), inputs.len());
    for (p, &node) in order.iter().enumerate() {
        assert_eq!(order.iter().filter(|&&x| x == node).count(), 1);
        for j in inputs[node].iter() {
            let pj = order.iter().position(|x| x == j).expect("input is ordered");
            assert!(pj < p);
        }
    }
}

#[test]
fn empty_graph_sorts() {
    let mut g: RoutingGraph<usize> = RoutingGraph::new(0, 1);
    assert_eq!(g.topological_sort(), Ok(()));
    assert!(order(&g).is_empty());
}

#[test]
fn chain_sorts_in_order() {
    let inputs: &[&[usize]] = &[&[], &[0], &[1]];
    let mut g = graph(inputs);
    assert_eq!(g.topological_sort(), Ok(()));
    assert_eq!(order(&g), vec![0, 1, 2]);
}

#[test]
fn reversed_chain_sorts() {
    let inputs: &[&[usize]] = &[&[1], &[2], &[]];
    let mut g = graph(inputs);
    assert_eq!(g.topological_sort(), Ok(()));
    assert_eq!(order(&g), vec![2, 1, 0]);
}

#[test]
fn diamond_sorts() {
    let inputs: &[&[usize]] = &[&[1, 2], &[3], &[3], &[]];
    let mut g = graph(inputs);
    assert_eq!(g.topological_sort(), Ok(()));
    assert_topological(inputs, &order(&g));
}

#[test]
fn several_sinks_and_sources_sort() {
    let inputs: &[&[usize]] = &[&[], &[], &[0, 1], &[0], &[2, 3, 1], &[]];
    let mut g = graph(inputs);
    assert_eq!(g.topological_sort(), Ok(()));
    assert_topological(inputs, &order(&g));
}

#[test]
fn full_graph_sorts() {
    let mut g = RoutingGraph::new(0, 1);
    for i in 0..MAX_NODES {
        let mut node = Node::new(i);
        if i > 0 {
            assert!(node.add_input(i - 1));
        }
        assert_eq!(g.add_node(node).ok(), Some(i));
    }
    assert_eq!(g.len(), MAX_NODES);
    assert!(g.add_node(Node::new(99)).is_err());
    assert_eq!(g.topological_sort(), Ok(()));
    assert_eq!(order(&g), (0..MAX_NODES).collect::<Vec<_>>());
}

#[test]
fn cycle_is_refused() {
    let inputs: &[&[usize]] = &[&[], &[0], &[1]];
    let mut g = graph(inputs);
    assert_eq!(g.topological_sort(), Ok(()));
    let mut cyclic = graph(&[&[2], &[0], &[1]]);
    assert_eq!(cyclic.topological_sort(), Err(()));
    assert!(order(&cyclic).is_empty());
}

#[test]
fn cycle_keeps_previous_order() {
    // a graph that sorted once keeps that order when a later sort fails
    let mut g = graph(&[&[], &[0]]);
    assert_eq!(g.topological_sort(), Ok(()));
    let mut looped = Node::new(2);
    assert!(looped.add_input(2));
    assert_eq!(g.add_node(looped).ok(), Some(2));
    assert_eq!(g.topological_sort(), Err(()));
    assert_eq!(order(&g), vec![0, 1]);
}

#[test]
fn self_loop_is_refused() {
    let mut g = graph(&[&[0]]);
    assert_eq!(g.topological_sort(), Err(()));
}

#[test]
fn missing_input_node_is_refused() {
    let mut g = graph(&[&[], &[5]]);
    assert_eq!(g.topological_sort(), Err(()));
}

#[test]
fn add_input_limits() {
    let mut node = Node::new('a');
    assert_eq!(*node.node_type(), 'a');
    assert!(node.add_input(3));
    assert!(node.add_input(3));
    assert!(!node.add_input(MAX_NODES));
    assert!(node.add_input(5));
    assert!(!node.add_input(6));
    assert_eq!(node.num_inputs(), MAX_NODE_INPUTS);
    assert_eq!((node.input(0), node.input(1), node.input(2)), (3, 3, 5));
    assert_eq!(node.count_input(3), 2);
    assert_eq!(node.count_input(5), 1);
    assert_eq!(node.count_input(6), 0);
}

#[test]
fn repeated_input_sorts() {
    let inputs: &[&[usize]] = &[&[], &[0, 0]];
    let mut g = graph(inputs);
    assert_eq!(g.topological_sort(), Ok(()));
    assert_eq!(order(&g), vec![0, 1]);
}

#[test]
fn repeated_inputs_in_a_larger_graph_sort() {
    let inputs: &[&[usize]] = &[&[3, 3, 1], &[2, 2, 2], &[], &[1, 2, 1]];
    let mut g = graph(inputs);
    assert_eq!(g.topological_sort(), Ok(()));
    assert_topological(inputs, &order(&g));
}

#[test]
fn repeated_input_in_a_cycle_is_refused() {
    let mut g = graph(&[&[1, 1], &[0]]);
    assert_eq!(g.topological_sort(), Err(()));
}

#[test]
fn graph_node_access() {
    let g = graph(&[&[], &[0]]);
    assert_eq!(*g.node(1).node_type(), 1);
    assert_eq!(g.node(1).input(0), 0);
}

#[test]
fn wide_fan_out_sorts() {
    // node 0 feeds every other node; each of those feeds the next
    let mut g = RoutingGraph::new(0, 1);
    for i in 0..MAX_NODES {
        let mut node = Node::new(i);
        if i > 0 {
            assert!(node.add_input(0));
        }
        if i > 1 {
            assert!(node.add_input(i - 1));
        }
        assert_eq!(g.add_node(node).ok(), Some(i));
    }
    assert_eq!(g.topological_sort(), Ok(()));
    assert_eq!(order(&g), (0..MAX_NODES).collect::<Vec<_>>());
}

#[test]
fn every_node_feeding_one_sorts() {
    let inputs: &[&[usize]] = &[&[1, 2, 3], &[], &[], &[]];
    let mut g = graph(inputs);
    assert_eq!(g.topological_sort(), Ok(()));
    let order = order(&g);
    assert_topological(inputs, &order);
    assert_eq!(order[3], 0);
}

#[test]
fn cycle_behind_a_source_is_refused() {
    // 0 is a source; 1 and 2 feed each other
    let mut g = graph(&[&[], &[0, 2], &[1]]);
    assert_eq!(g.topological_sort(), Err(()));
}
