use vstd::prelude::*;
use vstd::std_specs::convert::FromSpecImpl;
use egui_snarl::Snarl;
use crate::nodes::model::NodesView;
use crate::nodes::Nodes;
use crate::pins::{InputPinId, OutputPinId};
use crate::solver::graph::{graph_of, Graph, Wire};
use crate::solver::NodeId;

verus! {

/// The graph container of `egui_snarl`: nodes under their identifiers, and
/// wires between their pins. Nothing inside it is visible to the proofs.
#[verifier::external_type_specification]
#[verifier::external_body]
#[verifier::reject_recursive_types(T)]
pub struct ExSnarl<T>(egui_snarl::Snarl<T>);

/// The address of an input pin in `egui_snarl`: a node and a position.
#[verifier::external_type_specification]
#[verifier::external_body]
pub struct ExInPinId(egui_snarl::InPinId);

/// The address of an output pin in `egui_snarl`: a node and a position.
#[verifier::external_type_specification]
#[verifier::external_body]
pub struct ExOutPinId(egui_snarl::OutPinId);

/// The position that an address of an input pin holds.
pub uninterp spec fn input_position(id: egui_snarl::InPinId) -> usize;

/// The position that an address of an output pin holds.
pub uninterp spec fn output_position(id: egui_snarl::OutPinId) -> usize;

/// The position that `id` holds.
///
/// Reads the field `input` of `egui_snarl::InPinId`. Not proved: that the
/// result is that field.
#[verifier::external_body]
fn input_of(id: egui_snarl::InPinId) -> (r: usize)
    ensures
        r == input_position(id),
{
    id.input
}

/// The position that `id` holds.
///
/// Reads the field `output` of `egui_snarl::OutPinId`. Not proved: that the
/// result is that field.
#[verifier::external_body]
fn output_of(id: egui_snarl::OutPinId) -> (r: usize)
    ensures
        r == output_position(id),
{
    id.output
}

impl From<egui_snarl::InPinId> for InputPinId {
    fn from(value: egui_snarl::InPinId) -> (r: InputPinId) {
        InputPinId(input_of(value))
    }
}

impl FromSpecImpl<egui_snarl::InPinId> for InputPinId {
    open spec fn obeys_from_spec() -> bool {
        true
    }

    open spec fn from_spec(value: egui_snarl::InPinId) -> InputPinId {
        InputPinId(input_position(value))
    }
}

impl From<egui_snarl::OutPinId> for OutputPinId {
    fn from(value: egui_snarl::OutPinId) -> (r: OutputPinId) {
        OutputPinId(output_of(value))
    }
}

impl FromSpecImpl<egui_snarl::OutPinId> for OutputPinId {
    open spec fn obeys_from_spec() -> bool {
        true
    }

    open spec fn from_spec(value: egui_snarl::OutPinId) -> OutputPinId {
        OutputPinId(output_position(value))
    }
}

/// The nodes that a graph holds, each under its identifier.
pub uninterp spec fn snarl_nodes(snarl: Snarl<Nodes>) -> Map<usize, NodesView>;

/// The connections that a graph holds.
pub uninterp spec fn snarl_wires(snarl: Snarl<Nodes>) -> Set<Wire>;

/// The shape of a graph.
pub open spec fn topology(snarl: Snarl<Nodes>) -> Graph {
    graph_of(snarl_nodes(snarl), snarl_wires(snarl))
}

/// The input pins that are connected to the output pin `out_id` of the node
/// `node_id`.
///
/// Calls `Snarl::out_pin`, which collects them from the set of wires. Not
/// proved: that the result lists exactly the inputs that a wire of the graph
/// connects to this output, each once. Their order is that of a hash set
/// and is not stated.
#[verifier::external_body]
pub(crate) fn get_downstream_nodes(
    snarl: &Snarl<Nodes>,
    node_id: NodeId,
    out_id: OutputPinId,
) -> (remotes: Vec<(NodeId, InputPinId)>)
    ensures
        remotes@.no_duplicates(),
        forall|n: usize, i: usize|
            remotes@.contains((NodeId(n), InputPinId(i))) <==> snarl_wires(*snarl).contains(
                Wire { from: node_id.0, output: out_id.0, to: n, input: i },
            ),
{
    let pin = snarl.out_pin(
        egui_snarl::OutPinId { node: egui_snarl::NodeId(node_id.0), output: out_id.0 },
    );
    pin.remotes.into_iter().map(|r| (NodeId(r.node.0), InputPinId(r.input))).collect()
}

/// The node under `id`, if the graph holds one.
///
/// Calls `Snarl::get_node`. Not proved: that the result is the node that the
/// graph holds under `id`, and nothing where it holds none.
#[verifier::external_body]
pub(crate) fn node_ref(snarl: &Snarl<Nodes>, id: NodeId) -> (node: Option<&Nodes>)
    ensures
        match node {
            Some(n) => snarl_nodes(*snarl).contains_key(id.0) && n@ == snarl_nodes(*snarl)[id.0],
            None => !snarl_nodes(*snarl).contains_key(id.0),
        },
{
    snarl.get_node(egui_snarl::NodeId(id.0))
}

/// The node under `id`, to be changed in place.
///
/// Calls `Snarl::index_mut`, which panics where the graph holds no node
/// under `id`. Not proved: that the result is the node held under `id`, and
/// that the graph afterwards holds what the caller left there, with all
/// other nodes and all connections as before.
#[verifier::external_body]
pub(crate) fn node_mut(snarl: &mut Snarl<Nodes>, id: NodeId) -> (node: &mut Nodes)
    requires
        snarl_nodes(*old(snarl)).contains_key(id.0),
    ensures
        (*node)@ == snarl_nodes(*old(snarl))[id.0],
        snarl_nodes(*final(snarl)) == snarl_nodes(*old(snarl)).insert(id.0, (*final(node))@),
        snarl_wires(*final(snarl)) == snarl_wires(*old(snarl)),
{
    &mut snarl[egui_snarl::NodeId(id.0)]
}

/// The identifiers of all nodes.
///
/// Calls `Snarl::node_ids`, which walks the slab of nodes. Not proved: that
/// the result lists the identifier of every node that the graph holds, each
/// once.
#[verifier::external_body]
pub(crate) fn node_ids(snarl: &Snarl<Nodes>) -> (ids: Vec<NodeId>)
    ensures
        ids@.no_duplicates(),
        forall|n: usize| ids@.contains(NodeId(n)) <==> snarl_nodes(*snarl).contains_key(n),
{
    snarl.node_ids().map(|(id, _)| NodeId(id.0)).collect()
}

} // verus!
