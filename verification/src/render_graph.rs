//! The render graph snapshot: turns the engine's graph — nodes with typed
//! slots, directed edges, and named sub-graphs — into the plain tree that
//! the query layer serializes. Edges are reported from the data's producer
//! to its consumer, so each description's input edge comes out reversed.

use vstd::prelude::*;
use vstd::string::StringExecFns;

verus! {

/// The value type a slot carries.
#[derive(Clone, Copy, PartialEq, Eq, Structural, Debug)]
pub enum SlotKind {
    Buffer,
    Entity,
    Sampler,
    TextureView,
}

/// The display name of a slot's value type.
pub open spec fn slot_kind_name(kind: SlotKind) -> Seq<char> {
    match kind {
        SlotKind::Buffer => "Buffer"@,
        SlotKind::Entity => "Entity"@,
        SlotKind::Sampler => "Sampler"@,
        SlotKind::TextureView => "TextureView"@,
    }
}

/// One slot as the engine describes it.
pub struct SlotDescription {
    pub name: String,
    pub slot_type: SlotKind,
}

/// One edge as the engine describes it, pointing from the node that consumes
/// to the node that produces; slot indexes are present for slot edges and
/// absent for plain node ordering edges.
pub struct EdgeDescription {
    pub input_node: String,
    pub output_node: String,
    pub slots: Option<(usize, usize)>,
}

/// One node as the engine describes it.
pub struct NodeDescription {
    pub id: String,
    pub name: Option<String>,
    pub kind_name: String,
    pub input_slots: Vec<SlotDescription>,
    pub output_slots: Vec<SlotDescription>,
    pub input_edges: Vec<EdgeDescription>,
}

/// A graph as the engine describes it: named sub-graphs and nodes.
pub struct GraphDescription {
    pub sub_graphs: Vec<(String, GraphDescription)>,
    pub nodes: Vec<NodeDescription>,
}

/// One slot of the reported graph.
pub struct RenderGraphNodeSlot {
    pub name: String,
    pub ty_name: String,
}

/// One reported edge, pointing from producer to consumer.
pub struct Edge {
    pub source_node: String,
    pub source_slot: Option<usize>,
    pub sink_node: String,
    pub sink_slot: Option<usize>,
}

/// One entry of a reported graph: a nested sub-graph or a node.
pub enum RenderGraphNode {
    SubGraph { name: String, graph: SubRenderGraph },
    Node {
        id: String,
        name: String,
        ty_name: String,
        input_slots: Vec<RenderGraphNodeSlot>,
        output_slots: Vec<RenderGraphNodeSlot>,
    },
}

/// The reported graph.
pub struct SubRenderGraph {
    pub nodes: Vec<RenderGraphNode>,
    pub edges: Vec<Edge>,
}

/// The reported slot carries the described name and the display name of the
/// described type.
pub open spec fn slot_matches(d: SlotDescription, s: RenderGraphNodeSlot) -> bool {
    s.name@ == d.name@ && s.ty_name@ == slot_kind_name(d.slot_type)
}

/// The reported edge is the described edge reversed: its source is the
/// producing node, its sink the consuming node, and slot indexes travel
/// with their ends.
pub open spec fn edge_matches(d: EdgeDescription, e: Edge) -> bool {
    &&& e.source_node@ == d.output_node@
    &&& e.sink_node@ == d.input_node@
    &&& d.slots is Some ==> e.source_slot == Some((d.slots->0).1) && e.sink_slot == Some(
        (d.slots->0).0,
    )
    &&& d.slots is None ==> e.source_slot is None && e.sink_slot is None
}

/// The reported node carries the described identity, the described name or
/// a placeholder when the node is unnamed, and both slot lists.
pub open spec fn node_entry_matches(d: NodeDescription, n: RenderGraphNode) -> bool {
    match n {
        RenderGraphNode::Node { id, name, ty_name, input_slots, output_slots } => {
            &&& id@ == d.id@
            &&& ty_name@ == d.kind_name@
            &&& d.name is Some ==> name@ == d.name->0@
            &&& d.name is None ==> name@ == "unknown"@
            &&& input_slots@.len() == d.input_slots@.len()
            &&& forall|i: int|
                0 <= i < d.input_slots@.len() ==> slot_matches(
                    #[trigger] d.input_slots@[i],
                    input_slots@[i],
                )
            &&& output_slots@.len() == d.output_slots@.len()
            &&& forall|i: int|
                0 <= i < d.output_slots@.len() ==> slot_matches(
                    #[trigger] d.output_slots@[i],
                    output_slots@[i],
                )
        },
        _ => false,
    }
}

/// All described edges, gathered node by node in order.
pub open spec fn edges_of_nodes(nodes: Seq<NodeDescription>) -> Seq<EdgeDescription>
    decreases nodes.len(),
{
    if nodes.len() == 0 {
        Seq::empty()
    } else {
        edges_of_nodes(nodes.drop_last()) + nodes.last().input_edges@
    }
}

/// The reported entry for one named sub-graph: its name, and the sub-graph
/// transformed recursively.
pub open spec fn sub_entry_matches(d: (String, GraphDescription), n: RenderGraphNode) -> bool
    decreases d,
{
    match n {
        RenderGraphNode::SubGraph { name, graph } => name@ == d.0@ && graph_matches(d.1, graph),
        _ => false,
    }
}

/// The reported graph lists every sub-graph first, in order and transformed
/// recursively, then every node, and carries every described edge reversed,
/// gathered node by node.
pub open spec fn graph_matches(d: GraphDescription, g: SubRenderGraph) -> bool
    decreases d,
{
    &&& g.nodes@.len() == d.sub_graphs@.len() + d.nodes@.len()
    &&& forall|i: int|
        0 <= i < d.sub_graphs@.len() ==> sub_entry_matches(
            #[trigger] d.sub_graphs@[i],
            g.nodes@[i],
        )
    &&& forall|i: int|
        0 <= i < d.nodes@.len() ==> node_entry_matches(
            #[trigger] d.nodes@[i],
            g.nodes@[d.sub_graphs@.len() + i],
        )
    &&& g.edges@.len() == edges_of_nodes(d.nodes@).len()
    &&& forall|i: int|
        0 <= i < g.edges@.len() ==> edge_matches(
            edges_of_nodes(d.nodes@)[i],
            #[trigger] g.edges@[i],
        )
}

/// Report one slot list.
pub fn build_render_graph_slots(slots: &Vec<SlotDescription>) -> (built: Vec<RenderGraphNodeSlot>)
    ensures
        built@.len() == slots@.len(),
        forall|i: int| 0 <= i < slots@.len() ==> slot_matches(#[trigger] slots@[i], built@[i]),
{
    let mut built: Vec<RenderGraphNodeSlot> = Vec::new();
    let n = slots.len();
    let mut i: usize = 0;
    while i < n
        invariant
            0 <= i <= n,
            n == slots@.len(),
            built@.len() == i,
            forall|k: int| 0 <= k < i ==> slot_matches(#[trigger] slots@[k], built@[k]),
        decreases n - i,
    {
        let ty_name: &str = match slots[i].slot_type {
            SlotKind::Buffer => "Buffer",
            SlotKind::Entity => "Entity",
            SlotKind::Sampler => "Sampler",
            SlotKind::TextureView => "TextureView",
        };
        let slot = RenderGraphNodeSlot {
            name: slots[i].name.clone(),
            ty_name: String::from_str(ty_name),
        };
        built.push(slot);
        i += 1;
    }
    built
}

/// Report a whole graph: sub-graphs recursively, then nodes, with every
/// described edge reversed into producer-to-consumer direction.
pub fn build_render_graph(description: &GraphDescription) -> (graph: SubRenderGraph)
    ensures
        graph_matches(*description, graph),
    decreases *description,
{
    let mut nodes: Vec<RenderGraphNode> = Vec::new();
    let mut edges: Vec<Edge> = Vec::new();
    let sub_count = description.sub_graphs.len();
    let mut i: usize = 0;
    while i < sub_count
        invariant
            0 <= i <= sub_count,
            sub_count == description.sub_graphs@.len(),
            nodes@.len() == i,
            forall|k: int|
                0 <= k < i ==> sub_entry_matches(
                    #[trigger] description.sub_graphs@[k],
                    nodes@[k],
                ),
        decreases sub_count - i,
    {
        proof {
            assert(decreases_to!(*description => description.sub_graphs@[i as int].1)) by {
                vstd::seq::axiom_seq_index_decreases(description.sub_graphs@, i as int);
            }
        }
        let sub = build_render_graph(&description.sub_graphs[i].1);
        let entry = RenderGraphNode::SubGraph {
            name: description.sub_graphs[i].0.clone(),
            graph: sub,
        };
        let ghost pre_nodes = nodes@;
        nodes.push(entry);
        proof {
            assert forall|k: int|
                0 <= k < i + 1 implies sub_entry_matches(
                #[trigger] description.sub_graphs@[k],
                nodes@[k],
            ) by {
                if k < i {
                    assert(nodes@[k] == pre_nodes[k]);
                } else {
                    assert(nodes@[k] == pre_nodes.push(
                        RenderGraphNode::SubGraph {
                            name: description.sub_graphs@[k].0,
                            graph: sub,
                        },
                    ).last());
                }
            }
        }
        i += 1;
    }
    let node_count = description.nodes.len();
    let mut j: usize = 0;
    while j < node_count
        invariant
            0 <= j <= node_count,
            sub_count == description.sub_graphs@.len(),
            node_count == description.nodes@.len(),
            nodes@.len() == sub_count + j,
            forall|k: int|
                0 <= k < sub_count ==> sub_entry_matches(
                    #[trigger] description.sub_graphs@[k],
                    nodes@[k],
                ),
            forall|k: int|
                0 <= k < j ==> node_entry_matches(
                    #[trigger] description.nodes@[k],
                    nodes@[sub_count + k],
                ),
            edges@.len() == edges_of_nodes(description.nodes@.take(j as int)).len(),
            forall|k: int|
                0 <= k < edges@.len() ==> edge_matches(
                    edges_of_nodes(description.nodes@.take(j as int))[k],
                    #[trigger] edges@[k],
                ),
        decreases node_count - j,
    {
        let node = &description.nodes[j];
        let edge_count = node.input_edges.len();
        let ghost edges_before = edges@;
        let ghost prior = edges_of_nodes(description.nodes@.take(j as int));
        let mut e: usize = 0;
        while e < edge_count
            invariant
                0 <= e <= edge_count,
                edge_count == node.input_edges@.len(),
                node == &description.nodes@[j as int],
                0 <= j < description.nodes@.len(),
                prior == edges_of_nodes(description.nodes@.take(j as int)),
                edges_before.len() == prior.len(),
                forall|k: int|
                    0 <= k < edges_before.len() ==> edge_matches(
                        prior[k],
                        #[trigger] edges_before[k],
                    ),
                edges@.len() == edges_before.len() + e,
                edges@.take(edges_before.len() as int) == edges_before,
                forall|k: int|
                    0 <= k < e ==> edge_matches(
                        #[trigger] node.input_edges@[k],
                        edges@[edges_before.len() + k],
                    ),
            decreases edge_count - e,
        {
            let described = &node.input_edges[e];
            let (source_slot, sink_slot): (Option<usize>, Option<usize>) = match described.slots {
                Some((input_index, output_index)) => (Some(output_index), Some(input_index)),
                None => (None, None),
            };
            let edge = Edge {
                source_node: described.output_node.clone(),
                source_slot,
                sink_node: described.input_node.clone(),
                sink_slot,
            };
            let ghost pre = edges@;
            edges.push(edge);
            proof {
                assert(edges@.take(edges_before.len() as int) =~= pre.take(
                    edges_before.len() as int,
                ));
            }
            e += 1;
        }
        let entry = RenderGraphNode::Node {
            id: node.id.clone(),
            name: match &node.name {
                Some(name) => name.clone(),
                None => String::from_str("unknown"),
            },
            ty_name: node.kind_name.clone(),
            input_slots: build_render_graph_slots(&node.input_slots),
            output_slots: build_render_graph_slots(&node.output_slots),
        };
        let ghost pre_nodes = nodes@;
        nodes.push(entry);
        proof {
            assert forall|k: int|
                0 <= k < sub_count implies sub_entry_matches(
                #[trigger] description.sub_graphs@[k],
                nodes@[k],
            ) by {
                assert(nodes@[k] == pre_nodes[k]);
            }
            assert forall|k: int|
                0 <= k < j + 1 implies node_entry_matches(
                #[trigger] description.nodes@[k],
                nodes@[sub_count + k],
            ) by {
                if k < j {
                    assert(nodes@[sub_count + k] == pre_nodes[sub_count + k]);
                }
            }
            assert(description.nodes@.take(j + 1).drop_last() =~= description.nodes@.take(j as int));
            assert(description.nodes@.take(j + 1).last() == description.nodes@[j as int]);
            assert(edges_of_nodes(description.nodes@.take(j + 1)) == prior
                + description.nodes@[j as int].input_edges@);
            assert forall|k: int|
                0 <= k < edges@.len() implies edge_matches(
                edges_of_nodes(description.nodes@.take(j + 1))[k],
                #[trigger] edges@[k],
            ) by {
                if k < edges_before.len() {
                    assert(edges@[k] == edges@.take(edges_before.len() as int)[k]);
                    assert(edges_of_nodes(description.nodes@.take(j + 1))[k] == prior[k]);
                } else {
                    assert(edges_of_nodes(description.nodes@.take(j + 1))[k]
                        == description.nodes@[j as int].input_edges@[k - edges_before.len()]);
                }
            }
        }
        j += 1;
    }
    proof {
        assert(description.nodes@.take(node_count as int) =~= description.nodes@);
    }
    SubRenderGraph { nodes, edges }
}

} // verus!
