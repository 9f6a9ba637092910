use shadow::render_graph::{NodeEdge, RenderGraphBuilder, ResourceId};

fn id(n: u64) -> ResourceId {
    ResourceId(n)
}

fn order_of<N>(graph: &shadow::render_graph::RenderGraph<N>) -> Vec<Vec<usize>> {
    graph.order().clone()
}

#[test]
fn a_chain_runs_one_node_per_layer() {
    let mut builder = RenderGraphBuilder::new();
    builder.add_node(id(1), "shadow").add_node(id(2), "light").add_node(id(3), "post");
    builder.add_edge(id(1), id(2)).add_edge(id(2), id(3));
    let graph = builder.build();
    assert_eq!(graph.nodes(), &["shadow", "light", "post"]);
    assert_eq!(order_of(&graph), vec![vec![0], vec![1], vec![2]]);
}

#[test]
fn free_nodes_share_the_first_layer_in_insertion_order() {
    let mut builder = RenderGraphBuilder::new();
    builder.add_node(id(3), "c").add_node(id(2), "b").add_node(id(1), "a");
    builder.add_edge(id(1), id(2));
    let graph = builder.build();
    assert_eq!(graph.nodes(), &["c", "a", "b"]);
    assert_eq!(order_of(&graph), vec![vec![0, 1], vec![2]]);
}

#[test]
fn a_node_waits_for_all_its_dependencies() {
    let mut builder = RenderGraphBuilder::new();
    builder.add_node(id(10), "d").add_node(id(20), "e").add_node(id(30), "f").add_node(id(40), "g");
    builder.add_edge(id(10), id(40)).add_edge(id(30), id(40)).add_edge(id(20), id(30));
    let graph = builder.build();
    assert_eq!(graph.nodes(), &["d", "e", "f", "g"]);
    assert_eq!(order_of(&graph), vec![vec![0, 1], vec![2], vec![3]]);
}

#[test]
fn adding_a_node_twice_replaces_it_in_place() {
    let mut builder = RenderGraphBuilder::new();
    builder.add_node(id(1), "x").add_node(id(2), "y").add_node(id(1), "z");
    assert_eq!(builder.node(id(1)), Some(&"z"));
    assert_eq!(builder.node(id(2)), Some(&"y"));
    assert_eq!(builder.node(id(3)), None);
    let graph = builder.build();
    assert_eq!(graph.nodes(), &["z", "y"]);
    assert_eq!(order_of(&graph), vec![vec![0, 1]]);
}

#[test]
fn dependencies_on_missing_nodes_do_not_hold_a_node_back() {
    let mut builder = RenderGraphBuilder::new();
    builder.add_node(id(1), "a").add_node(id(2), "b");
    builder.add_edge(id(9), id(2)).add_edge(id(9), id(2)).set_target(id(2));
    let graph = builder.build();
    assert_eq!(graph.nodes(), &["a", "b"]);
    assert_eq!(order_of(&graph), vec![vec![0, 1]]);
}

#[test]
fn node_mut_changes_the_node_in_place() {
    let mut builder = RenderGraphBuilder::new();
    builder.add_node(id(5), 50u32).add_node(id(6), 60u32);
    if let Some(node) = builder.node_mut(id(6)) {
        *node = 61;
    }
    assert!(builder.node_mut(id(7)).is_none());
    let graph = builder.build();
    assert_eq!(graph.nodes(), &[50u32, 61u32]);
}

#[test]
fn an_empty_builder_builds_an_empty_graph() {
    let builder: RenderGraphBuilder<u8> = RenderGraphBuilder::new();
    let graph = builder.build();
    assert!(graph.nodes().is_empty());
    assert!(order_of(&graph).is_empty());
}

#[test]
fn node_edges_keep_their_ends() {
    let edge = NodeEdge::new(id(1), id(2));
    assert_eq!(edge.from(), id(1));
    assert_eq!(edge.to(), id(2));
}

#[test]
fn generated_ids_are_stable() {
    assert_eq!(ResourceId::gen(), ResourceId::gen());
}
