use vstd::prelude::*;
use crate::nodes::model::{held_numbers, NodeCore, NodesView, PinView};
use crate::nodes::{Node, NodeDowncast, NodeInfo, Nodes, NumberEmitterNode};
use crate::number::Number;
use crate::values::{Values, ValuesView};

verus! {

/// The bit pattern of the double nearest to pi.
pub const PI_BITS: u64 = 0x400921fb54442d18;

/// The bit pattern of the double nearest to twice pi.
pub const TAU_BITS: u64 = 0x401921fb54442d18;

/// The bit pattern of the golden ratio as a double.
pub const PHI_BITS: u64 = 0x3ff9e3779b97f4a8;

/// The bit pattern of the golden angle as a double.
pub const RHO_BITS: u64 = 0x4003331febfa4bfb;

/// The constants that a constant node can offer.
#[derive(Clone, Copy, Debug, PartialEq, Eq, Structural, Hash)]
pub enum ConstantValue {
    Pi,
    Tau,
    /// The golden ratio.
    Phi,
    /// The golden angle, in radians.
    Rho,
    Custom,
}

impl ConstantValue {
    /// The number that the constant stands for; zero for `Custom`, whose
    /// number the node holds.
    pub open spec fn value_spec(self) -> Number {
        match self {
            ConstantValue::Pi => Number { bits: PI_BITS },
            ConstantValue::Tau => Number { bits: TAU_BITS },
            ConstantValue::Phi => Number { bits: PHI_BITS },
            ConstantValue::Rho => Number { bits: RHO_BITS },
            ConstantValue::Custom => Number { bits: 0 },
        }
    }

    /// The number that the constant stands for; zero for `Custom`.
    pub fn value(&self) -> (r: Number)
        ensures
            r == self.value_spec(),
    {
        match self {
            ConstantValue::Pi => Number { bits: PI_BITS },
            ConstantValue::Tau => Number { bits: TAU_BITS },
            ConstantValue::Phi => Number { bits: PHI_BITS },
            ConstantValue::Rho => Number { bits: RHO_BITS },
            ConstantValue::Custom => Number { bits: 0 },
        }
    }
}

/// The number that a constant node offers: that of its constant, or the
/// number that it holds where the constant is `Custom`.
pub open spec fn constant_number(value: ConstantValue, overwrite: Number) -> Number {
    match value {
        ConstantValue::Custom => overwrite,
        _ => value.value_spec(),
    }
}

/// A source that offers one number.
pub struct ConstantValueNode {
    value: ConstantValue,
    value_overwrite: Number,
}

impl View for ConstantValueNode {
    type V = NodesView;

    closed spec fn view(&self) -> NodesView {
        NodesView {
            core: NodeCore::Constant { value: self.value, overwrite: self.value_overwrite },
            inputs: Seq::empty(),
            outputs: seq![
                PinView {
                    values: ValuesView::Float(
                        seq![constant_number(self.value, self.value_overwrite)],
                    ),
                    dirty: false,
                },
            ],
        }
    }
}

impl ConstantValueNode {
    /// What a constant node with these two parameters looks like.
    pub open spec fn view_of(value: ConstantValue, overwrite: Number) -> NodesView {
        NodesView {
            core: NodeCore::Constant { value, overwrite },
            inputs: Seq::empty(),
            outputs: seq![
                PinView {
                    values: ValuesView::Float(seq![constant_number(value, overwrite)]),
                    dirty: false,
                },
            ],
        }
    }

    /// A constant node with `value` selected, which offers `value_overwrite`
    /// while `Custom` is selected.
    pub fn new(value: ConstantValue, value_overwrite: Number) -> (r: ConstantValueNode)
        ensures
            r@ == Self::view_of(value, value_overwrite),
    {
        ConstantValueNode { value, value_overwrite }
    }

    /// The constant that was selected.
    pub fn selected(&self) -> (r: ConstantValue)
        ensures
            self@ == Self::view_of(r, self.overwrite()),
    {
        self.value
    }

    /// The number that is offered while `Custom` is selected.
    pub closed spec fn overwrite(&self) -> Number {
        self.value_overwrite
    }

    /// The number that is offered while `Custom` is selected.
    pub fn value_overwrite(&self) -> (r: Number)
        ensures
            r == self.overwrite(),
            r == self@.core->Constant_overwrite,
    {
        self.value_overwrite
    }

    /// Selects `value` and keeps the custom number.
    pub fn select(&mut self, value: ConstantValue)
        ensures
            final(self)@ == Self::view_of(value, old(self).overwrite()),
            final(self).overwrite() == old(self).overwrite(),
    {
        self.value = value;
    }

    /// Sets the custom number and keeps the selection.
    pub fn set_overwrite(&mut self, number: Number)
        ensures
            final(self).overwrite() == number,
            final(self)@.core == (NodeCore::Constant {
                value: old(self)@.core->Constant_value,
                overwrite: number,
            }),
            final(self)@ == Self::view_of(old(self)@.core->Constant_value, number),
    {
        self.value_overwrite = number;
    }

    /// The number that the node offers.
    pub fn number_out(&self) -> (r: Number)
        ensures
            self@.outputs[0].values == ValuesView::Float(seq![r]),
            r == constant_number(self@.core->Constant_value, self@.core->Constant_overwrite),
    {
        match self.value {
            ConstantValue::Custom => self.value_overwrite,
            _ => self.value.value(),
        }
    }

    /// What the node offers: its one number.
    pub fn values_out(&self) -> (r: Values)
        ensures
            r@ == self@.outputs[0].values,
    {
        let mut numbers: Vec<Number> = Vec::new();
        numbers.push(self.number_out());
        proof {
            assert(numbers@ =~= seq![constant_number(self.value, self.value_overwrite)]);
        }
        Values::Float(numbers)
    }

    /// That the view is one of a constant node.
    pub proof fn lemma_view(&self)
        ensures
            self@.core is Constant,
            self@.wf(),
            self@ == Self::view_of(
                self@.core->Constant_value,
                self@.core->Constant_overwrite,
            ),
    {
    }
}

impl Default for ConstantValueNode {
    fn default() -> (r: ConstantValueNode)
        ensures
            r@ == ConstantValueNode::view_of(ConstantValue::Pi, Number::zero()),
    {
        ConstantValueNode { value: ConstantValue::Pi, value_overwrite: Number { bits: 0 } }
    }
}

impl Node for ConstantValueNode {

}

impl NodeInfo for ConstantValueNode {
    open spec fn pins() -> (nat, nat) {
        (0, 1)
    }

    open spec fn name() -> Seq<char> {
        "Constant"@
    }

    fn inputs() -> (r: usize)
        ensures
            r == 0,
    {
        0
    }

    fn outputs() -> (r: usize)
        ensures
            r == 1,
    {
        1
    }

    fn title() -> (r: String)
        ensures
            r@ == "Constant"@,
    {
        "Constant".to_owned()
    }
}

impl NodeDowncast for ConstantValueNode {
    open spec fn is_in(from: &Nodes) -> bool {
        from is ConstantValueNode
    }

    fn try_downcast(from: &Nodes) -> (r: Option<&Self>)
        ensures
            match r {
                Some(node) => *from == Nodes::ConstantValueNode(*node),
                None => !(from is ConstantValueNode),
            },
    {
        match from {
            Nodes::ConstantValueNode(node) => Some(node),
            _ => None,
        }
    }

    fn try_downcast_mut(from: &mut Nodes) -> (r: Option<&mut Self>)
        ensures
            match r {
                Some(node) => *old(from) is ConstantValueNode && *node == old(from)->ConstantValueNode_0 && *final(from)
                    == Nodes::ConstantValueNode(*final(node)),
                None => !(*old(from) is ConstantValueNode) && *final(from) == *old(from),
            },
    {
        match from {
            Nodes::ConstantValueNode(node) => Some(node),
            _ => None,
        }
    }
}

impl NumberEmitterNode for ConstantValueNode {
    open spec fn numbers(&self) -> Seq<Number> {
        held_numbers(self@.outputs[0].values)
    }

    fn try_get_number(&self) -> (r: Number)
        ensures
            self@.outputs[0].values == ValuesView::Float(seq![r]),
    {
        self.number_out()
    }

    fn try_get_numbers(&self) -> (r: Vec<Number>)
        ensures
            self@.outputs[0].values == ValuesView::Float(r@),
    {
        let mut numbers: Vec<Number> = Vec::new();
        numbers.push(self.number_out());
        proof {
            assert(numbers@ =~= seq![constant_number(self.value, self.value_overwrite)]);
        }
        numbers
    }
}

} // verus!
