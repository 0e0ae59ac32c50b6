use vstd::prelude::*;
use crate::nodes::model::{
    accept_spec, cleaned, count_set, held_counts, held_numbers, number_set, stretched, NodeCore,
    NodesView, PinView,
};
use crate::nodes::{Node, NodeDowncast, NodeInfo, Nodes, NumberEmitterNode};
use crate::number::Number;
use crate::pins::{InputPin, InputPinId, OPin, OutputPin};
use crate::values::{copy_values, Values, ValuesView};

verus! {

/// A node that offers an arithmetic sequence of numbers.
///
/// It holds where the sequence starts, its step and how many numbers it
/// has. The sequence itself is arithmetic on doubles: the embedding program
/// computes it from the three and hands it to [`RangeNode::recalc`].
pub struct RangeNode {
    start_in: InputPin<Number>,
    step_in: InputPin<Number>,
    count_in: InputPin<usize>,
    range_out: OutputPin<Number>,
}

impl View for RangeNode {
    type V = NodesView;

    closed spec fn view(&self) -> NodesView {
        NodesView {
            core: NodeCore::Range,
            inputs: seq![
                PinView { values: ValuesView::Float(self.start_in@.values), dirty: self.start_in@.dirty },
                PinView { values: ValuesView::Float(self.step_in@.values), dirty: self.step_in@.dirty },
                PinView { values: ValuesView::Int(self.count_in@.values), dirty: self.count_in@.dirty },
            ],
            outputs: seq![
                PinView { values: ValuesView::Float(self.range_out@.values), dirty: self.range_out@.dirty },
            ],
        }
    }
}

impl RangeNode {
    /// A range node whose pins hold nothing.
    pub open spec fn empty_view() -> NodesView {
        NodesView {
            core: NodeCore::Range,
            inputs: seq![
                PinView { values: ValuesView::Float(Seq::empty()), dirty: false },
                PinView { values: ValuesView::Float(Seq::empty()), dirty: false },
                PinView { values: ValuesView::Int(Seq::empty()), dirty: false },
            ],
            outputs: seq![PinView { values: ValuesView::Float(Seq::empty()), dirty: false }],
        }
    }

    /// A range node whose pins hold nothing.
    pub fn new() -> (r: RangeNode)
        ensures
            r@ == Self::empty_view(),
    {
        let r = RangeNode {
            start_in: InputPin::new(),
            step_in: InputPin::new(),
            count_in: InputPin::new(),
            range_out: OutputPin::new(),
        };
        proof {
            assert(r@.inputs =~= Self::empty_view().inputs);
            assert(r@.outputs =~= Self::empty_view().outputs);
        }
        r
    }

    /// That the view is one of a range node.
    pub proof fn lemma_view(&self)
        ensures
            self@.core is Range,
            self@.wf(),
            self@.inputs[0].values is Float,
            self@.inputs[1].values is Float,
            self@.inputs[2].values is Int,
            self@.outputs[0].values is Float,
    {
    }

    /// Stores `numbers` as the sequence that the node offers, and marks the
    /// three inputs as consumed. `numbers` is what the embedding program
    /// computed from start, step and count: the sequence is arithmetic on
    /// doubles, which is not done here.
    pub fn recalc(&mut self, numbers: Vec<Number>)
        ensures
            final(self)@ == (NodesView {
                core: old(self)@.core,
                inputs: cleaned(old(self)@.inputs),
                outputs: seq![PinView { values: ValuesView::Float(numbers@), dirty: true }],
            }),
    {
        self.set_numbers(numbers);
        self.consume_inputs();
    }

    /// Marks the three inputs as consumed. The sequence is left as it is.
    pub fn consume_inputs(&mut self)
        ensures
            final(self)@ == (NodesView {
                core: old(self)@.core,
                inputs: cleaned(old(self)@.inputs),
                outputs: old(self)@.outputs,
            }),
    {
        self.start_in.clear_dirty();
        self.step_in.clear_dirty();
        self.count_in.clear_dirty();
        proof {
            assert(self@.inputs =~= cleaned(old(self)@.inputs));
        }
    }

    /// Where the sequence starts: the first value of the pin, zero where it
    /// holds none.
    pub fn start(&self) -> (r: Number)
        ensures
            r == stretched(held_numbers(self@.inputs[0].values), 0, Number::zero()),
    {
        match self.start_in.value_out() {
            Some(v) => *v,
            None => Number { bits: 0 },
        }
    }

    /// The step of the sequence: the first value of the pin, zero where it
    /// holds none.
    pub fn step(&self) -> (r: Number)
        ensures
            r == stretched(held_numbers(self@.inputs[1].values), 0, Number::zero()),
    {
        match self.step_in.value_out() {
            Some(v) => *v,
            None => Number { bits: 0 },
        }
    }

    /// How many numbers the sequence has: the first value of the pin, zero
    /// where it holds none.
    pub fn count(&self) -> (r: usize)
        ensures
            r == stretched(held_counts(self@.inputs[2].values), 0, 0usize),
    {
        match self.count_in.value_out() {
            Some(v) => *v,
            None => 0,
        }
    }

    /// Writes where the sequence starts.
    pub fn set_start(&mut self, value: Number)
        ensures
            final(self)@ == number_set(old(self)@, 0, value),
    {
        self.start_in.set_value(value);
        proof {
            let want = number_set(old(self)@, 0, value);
            assert(self@.inputs =~= want.inputs);
            assert(self@.outputs =~= want.outputs);
        }
    }

    /// Writes the step of the sequence.
    pub fn set_step(&mut self, value: Number)
        ensures
            final(self)@ == number_set(old(self)@, 1, value),
    {
        self.step_in.set_value(value);
        proof {
            let want = number_set(old(self)@, 1, value);
            assert(self@.inputs =~= want.inputs);
            assert(self@.outputs =~= want.outputs);
        }
    }

    /// Writes how many numbers the sequence has.
    pub fn set_count(&mut self, value: usize)
        ensures
            final(self)@ == count_set(old(self)@, 2, value),
    {
        self.count_in.set_value(value);
        proof {
            let want = count_set(old(self)@, 2, value);
            assert(self@.inputs =~= want.inputs);
            assert(self@.outputs =~= want.outputs);
        }
    }

    /// Stores `numbers` as the sequence that the node offers.
    pub fn set_numbers(&mut self, numbers: Vec<Number>)
        ensures
            final(self)@ == (NodesView {
                core: old(self)@.core,
                inputs: old(self)@.inputs,
                outputs: seq![PinView { values: ValuesView::Float(numbers@), dirty: true }],
            }),
    {
        self.range_out.set_values(numbers);
        proof {
            assert(self@.inputs =~= old(self)@.inputs);
            assert(self@.outputs =~= seq![
                PinView { values: ValuesView::Float(numbers@), dirty: true },
            ]);
        }
    }

    /// The sequence that the node offers.
    pub fn get_numbers(&self) -> (r: Vec<Number>)
        ensures
            self@.outputs[0].values == ValuesView::Float(r@),
    {
        copy_values(self.range_out.values_out())
    }

    /// Whether the input pin `id` holds values that the node has not yet
    /// consumed; not so for a pin that the node does not have.
    pub fn is_dirty(&self, id: InputPinId) -> (r: bool)
        ensures
            r == (id.0 < self@.inputs.len() && self@.inputs[id.0 as int].dirty),
    {
        if id.0 == 0 {
            self.start_in.is_dirty()
        } else if id.0 == 1 {
            self.step_in.is_dirty()
        } else if id.0 == 2 {
            self.count_in.is_dirty()
        } else {
            false
        }
    }

    /// Delivers `values` to the input pin `id`: start, step and count, in
    /// this order.
    pub fn values_in(&mut self, id: InputPinId, values: &Values)
        ensures
            final(self)@ == accept_spec(old(self)@, id.0 as int, values@),
    {
        if id.0 == 0 {
            match values.numbers() {
                Some(numbers) => {
                    self.start_in.set_values(numbers);
                },
                None => {},
            }
        } else if id.0 == 1 {
            match values.numbers() {
                Some(numbers) => {
                    self.step_in.set_values(numbers);
                },
                None => {},
            }
        } else if id.0 == 2 {
            match values {
                Values::Int(counts) => {
                    self.count_in.set_values(copy_values(counts));
                },
                _ => {},
            }
        }
        proof {
            let want = accept_spec(old(self)@, id.0 as int, values@);
            assert(self@.inputs =~= want.inputs);
            assert(self@.outputs =~= want.outputs);
        }
    }

    /// What the node offers: its sequence.
    pub fn values_out(&self) -> (r: Values)
        ensures
            r@ == self@.outputs[0].values,
    {
        Values::Float(copy_values(self.range_out.values_out()))
    }
}

impl Default for RangeNode {
    fn default() -> (r: RangeNode)
        ensures
            r@ == RangeNode::empty_view(),
    {
        RangeNode::new()
    }
}

impl Node for RangeNode {

}

impl NodeInfo for RangeNode {
    open spec fn pins() -> (nat, nat) {
        (3, 1)
    }

    open spec fn name() -> Seq<char> {
        "Range"@
    }

    fn inputs() -> (r: usize)
        ensures
            r == 3,
    {
        3
    }

    fn outputs() -> (r: usize)
        ensures
            r == 1,
    {
        1
    }

    fn title() -> (r: String)
        ensures
            r@ == "Range"@,
    {
        "Range".to_owned()
    }
}

impl NodeDowncast for RangeNode {
    open spec fn is_in(from: &Nodes) -> bool {
        from is Range
    }

    fn try_downcast(from: &Nodes) -> (r: Option<&Self>)
        ensures
            match r {
                Some(node) => *from == Nodes::Range(*node),
                None => !(from is Range),
            },
    {
        match from {
            Nodes::Range(node) => Some(node),
            _ => None,
        }
    }

    fn try_downcast_mut(from: &mut Nodes) -> (r: Option<&mut Self>)
        ensures
            match r {
                Some(node) => *old(from) is Range && *node == old(from)->Range_0 && *final(from)
                    == Nodes::Range(*final(node)),
                None => !(*old(from) is Range) && *final(from) == *old(from),
            },
    {
        match from {
            Nodes::Range(node) => Some(node),
            _ => None,
        }
    }
}

impl NumberEmitterNode for RangeNode {
    open spec fn numbers(&self) -> Seq<Number> {
        held_numbers(self@.outputs[0].values)
    }

    fn try_get_number(&self) -> (r: Number) {
        match self.range_out.value_out() {
            Some(v) => *v,
            None => Number { bits: 0 },
        }
    }

    fn try_get_numbers(&self) -> (r: Vec<Number>)
        ensures
            self@.outputs[0].values == ValuesView::Float(r@),
    {
        copy_values(self.range_out.values_out())
    }
}

} // verus!
