use vstd::prelude::*;
use crate::nodes::model::{NodeCore, NodesView, PinView};
use crate::nodes::{Node, NodeDowncast, NodeInfo, Nodes};
use crate::values::ValuesView;

verus! {

/// A node that only shows what it is connected to. It has one input pin and
/// stores nothing: whatever is delivered to it leaves it as it was.
#[derive(Clone, Copy, Debug)]
pub struct SinkNode;

impl View for SinkNode {
    type V = NodesView;

    open spec fn view(&self) -> NodesView {
        NodesView {
            core: NodeCore::Sink,
            inputs: seq![PinView { values: ValuesView::Custom(Seq::empty()), dirty: false }],
            outputs: Seq::empty(),
        }
    }
}

impl Node for SinkNode {

}

impl NodeInfo for SinkNode {
    open spec fn pins() -> (nat, nat) {
        (1, 0)
    }

    open spec fn name() -> Seq<char> {
        "Sink"@
    }

    fn inputs() -> (r: usize)
        ensures
            r == 1,
    {
        1
    }

    fn outputs() -> (r: usize)
        ensures
            r == 0,
    {
        0
    }

    fn title() -> (r: String)
        ensures
            r@ == "Sink"@,
    {
        "Sink".to_owned()
    }
}

impl NodeDowncast for SinkNode {
    open spec fn is_in(from: &Nodes) -> bool {
        from is Sink
    }

    fn try_downcast(from: &Nodes) -> (r: Option<&Self>)
        ensures
            match r {
                Some(node) => *from == Nodes::Sink(*node),
                None => !(from is Sink),
            },
    {
        match from {
            Nodes::Sink(node) => Some(node),
            _ => None,
        }
    }

    fn try_downcast_mut(from: &mut Nodes) -> (r: Option<&mut Self>)
        ensures
            match r {
                Some(node) => *old(from) is Sink && *node == old(from)->Sink_0 && *final(from) == Nodes::Sink(*final(node)),
                None => !(*old(from) is Sink) && *final(from) == *old(from),
            },
    {
        match from {
            Nodes::Sink(node) => Some(node),
            _ => None,
        }
    }
}

} // verus!
