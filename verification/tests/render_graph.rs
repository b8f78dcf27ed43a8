//! The render graph snapshot: recursion over sub-graphs, edge reversal,
//! slot naming, and the unnamed-node placeholder.

use remote_devtools::render_graph::build_render_graph;
use remote_devtools::render_graph::EdgeDescription;
use remote_devtools::render_graph::GraphDescription;
use remote_devtools::render_graph::NodeDescription;
use remote_devtools::render_graph::RenderGraphNode;
use remote_devtools::render_graph::SlotDescription;
use remote_devtools::render_graph::SlotKind;

fn node(
    id: &str,
    name: Option<&str>,
    kind: &str,
    input_slots: Vec<SlotDescription>,
    edges: Vec<EdgeDescription>,
) -> NodeDescription {
    NodeDescription {
        id: String::from(id),
        name: name.map(String::from),
        kind_name: String::from(kind),
        input_slots,
        output_slots: Vec::new(),
        input_edges: edges,
    }
}

#[test]
fn edges_come_out_reversed() {
    let description = GraphDescription {
        sub_graphs: Vec::new(),
        nodes: vec![node(
            "node-b",
            Some("consumer"),
            "app::Consumer",
            Vec::new(),
            vec![EdgeDescription {
                input_node: String::from("node-b"),
                output_node: String::from("node-a"),
                slots: Some((2, 5)),
            }],
        )],
    };
    let graph = build_render_graph(&description);
    assert_eq!(graph.edges.len(), 1);
    let edge = &graph.edges[0];
    assert_eq!(edge.source_node, "node-a");
    assert_eq!(edge.source_slot, Some(5));
    assert_eq!(edge.sink_node, "node-b");
    assert_eq!(edge.sink_slot, Some(2));
}

#[test]
fn node_edges_carry_no_slots() {
    let description = GraphDescription {
        sub_graphs: Vec::new(),
        nodes: vec![node(
            "node-b",
            None,
            "app::Consumer",
            Vec::new(),
            vec![EdgeDescription {
                input_node: String::from("node-b"),
                output_node: String::from("node-a"),
                slots: None,
            }],
        )],
    };
    let graph = build_render_graph(&description);
    assert_eq!(graph.edges[0].source_slot, None);
    assert_eq!(graph.edges[0].sink_slot, None);
}

#[test]
fn sub_graphs_come_first_and_recurse() {
    let inner = GraphDescription {
        sub_graphs: Vec::new(),
        nodes: vec![node("inner-node", Some("shadow"), "app::Shadow", Vec::new(), Vec::new())],
    };
    let description = GraphDescription {
        sub_graphs: vec![(String::from("shadows"), inner)],
        nodes: vec![node(
            "outer-node",
            None,
            "app::Main",
            vec![
                SlotDescription { name: String::from("view"), slot_type: SlotKind::TextureView },
                SlotDescription { name: String::from("buf"), slot_type: SlotKind::Buffer },
            ],
            Vec::new(),
        )],
    };
    let graph = build_render_graph(&description);
    assert_eq!(graph.nodes.len(), 2);
    match &graph.nodes[0] {
        RenderGraphNode::SubGraph { name, graph: sub } => {
            assert_eq!(name, "shadows");
            assert_eq!(sub.nodes.len(), 1);
            match &sub.nodes[0] {
                RenderGraphNode::Node { id, name, .. } => {
                    assert_eq!(id, "inner-node");
                    assert_eq!(name, "shadow");
                },
                _ => panic!("expected a node entry"),
            }
        },
        _ => panic!("expected the sub-graph first"),
    }
    match &graph.nodes[1] {
        RenderGraphNode::Node { id, name, ty_name, input_slots, .. } => {
            assert_eq!(id, "outer-node");
            // An unnamed node gets the placeholder.
            assert_eq!(name, "unknown");
            assert_eq!(ty_name, "app::Main");
            assert_eq!(input_slots.len(), 2);
            assert_eq!(input_slots[0].name, "view");
            assert_eq!(input_slots[0].ty_name, "TextureView");
            assert_eq!(input_slots[1].ty_name, "Buffer");
        },
        _ => panic!("expected the node entry second"),
    }
}
