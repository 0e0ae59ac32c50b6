use vstd::prelude::*;
use crate::nodes::model::{
    accept_spec, cleaned, held_numbers, held_points, number_set, stretched, NodeCore, NodesView,
    PinView,
};
use crate::nodes::{EmitterNode, Node, NodeDowncast, NodeInfo, Nodes};
use crate::number::Number;
use crate::pins::{InputPin, InputPinId, OPin, OutputPin};
use crate::shapes::Point;
use crate::values::{copy_values, Values, ValuesView};

verus! {

/// A node that offers points given by a center, a radius and an angle.
///
/// It holds the three lists. The points themselves take trigonometry on
/// doubles: the embedding program computes them from the three and hands
/// them to [`PointPolarNode::recalc`].
pub struct PointPolarNode {
    center_in: InputPin<Point>,
    radius_in: InputPin<Number>,
    angle_in: InputPin<Number>,
    point_out: OutputPin<Point>,
}

impl View for PointPolarNode {
    type V = NodesView;

    closed spec fn view(&self) -> NodesView {
        NodesView {
            core: NodeCore::PointPolar,
            inputs: seq![
                PinView { values: ValuesView::Point(self.center_in@.values), dirty: self.center_in@.dirty },
                PinView { values: ValuesView::Float(self.radius_in@.values), dirty: self.radius_in@.dirty },
                PinView { values: ValuesView::Float(self.angle_in@.values), dirty: self.angle_in@.dirty },
            ],
            outputs: seq![
                PinView { values: ValuesView::Point(self.point_out@.values), dirty: self.point_out@.dirty },
            ],
        }
    }
}

impl PointPolarNode {
    /// A polar point node whose pins hold nothing.
    pub open spec fn empty_view() -> NodesView {
        NodesView {
            core: NodeCore::PointPolar,
            inputs: seq![
                PinView { values: ValuesView::Point(Seq::empty()), dirty: false },
                PinView { values: ValuesView::Float(Seq::empty()), dirty: false },
                PinView { values: ValuesView::Float(Seq::empty()), dirty: false },
            ],
            outputs: seq![PinView { values: ValuesView::Point(Seq::empty()), dirty: false }],
        }
    }

    /// A polar point node whose pins hold nothing.
    pub fn new() -> (r: PointPolarNode)
        ensures
            r@ == Self::empty_view(),
    {
        let r = PointPolarNode {
            center_in: InputPin::new(),
            radius_in: InputPin::new(),
            angle_in: InputPin::new(),
            point_out: OutputPin::new(),
        };
        proof {
            assert(r@.inputs =~= Self::empty_view().inputs);
            assert(r@.outputs =~= Self::empty_view().outputs);
        }
        r
    }

    /// That the view is one of a polar point node.
    pub proof fn lemma_view(&self)
        ensures
            self@.core is PointPolar,
            self@.wf(),
            self@.inputs[0].values is Point,
            self@.inputs[1].values is Float,
            self@.inputs[2].values is Float,
            self@.outputs[0].values is Point,
    {
    }

    /// Stores `points` as the points that the node offers, and marks the
    /// three inputs as consumed. `points` is what the embedding program
    /// computed from centers, radii and angles: that is trigonometry on
    /// doubles, which is not done here.
    pub fn recalc(&mut self, points: Vec<Point>)
        ensures
            final(self)@ == (NodesView {
                core: old(self)@.core,
                inputs: cleaned(old(self)@.inputs),
                outputs: seq![PinView { values: ValuesView::Point(points@), dirty: true }],
            }),
    {
        self.set_points(points);
        self.consume_inputs();
    }

    /// Marks the three inputs as consumed. The points are left as they are.
    pub fn consume_inputs(&mut self)
        ensures
            final(self)@ == (NodesView {
                core: old(self)@.core,
                inputs: cleaned(old(self)@.inputs),
                outputs: old(self)@.outputs,
            }),
    {
        self.center_in.clear_dirty();
        self.radius_in.clear_dirty();
        self.angle_in.clear_dirty();
        proof {
            assert(self@.inputs =~= cleaned(old(self)@.inputs));
        }
    }

    /// The centers.
    pub fn centers(&self) -> (r: Vec<Point>)
        ensures
            r@ == held_points(self@.inputs[0].values),
    {
        copy_values(self.center_in.values_out())
    }

    /// The radii.
    pub fn radii(&self) -> (r: Vec<Number>)
        ensures
            r@ == held_numbers(self@.inputs[1].values),
    {
        copy_values(self.radius_in.values_out())
    }

    /// The angles.
    pub fn angles(&self) -> (r: Vec<Number>)
        ensures
            r@ == held_numbers(self@.inputs[2].values),
    {
        copy_values(self.angle_in.values_out())
    }

    /// Writes the first radius.
    pub fn set_radius(&mut self, value: Number)
        ensures
            final(self)@ == number_set(old(self)@, 1, value),
    {
        self.radius_in.set_value(value);
        proof {
            let want = number_set(old(self)@, 1, value);
            assert(self@.inputs =~= want.inputs);
            assert(self@.outputs =~= want.outputs);
        }
    }

    /// Writes the first angle.
    pub fn set_angle(&mut self, value: Number)
        ensures
            final(self)@ == number_set(old(self)@, 2, value),
    {
        self.angle_in.set_value(value);
        proof {
            let want = number_set(old(self)@, 2, value);
            assert(self@.inputs =~= want.inputs);
            assert(self@.outputs =~= want.outputs);
        }
    }

    /// Stores `points` as the points that the node offers.
    pub fn set_points(&mut self, points: Vec<Point>)
        ensures
            final(self)@ == (NodesView {
                core: old(self)@.core,
                inputs: old(self)@.inputs,
                outputs: seq![PinView { values: ValuesView::Point(points@), dirty: true }],
            }),
    {
        self.point_out.set_values(points);
        proof {
            assert(self@.inputs =~= old(self)@.inputs);
            assert(self@.outputs =~= seq![
                PinView { values: ValuesView::Point(points@), dirty: true },
            ]);
        }
    }

    /// The first point that the node offers; the origin where it offers
    /// none.
    pub fn point_out(&self) -> (r: Point)
        ensures
            r == stretched(held_points(self@.outputs[0].values), 0, Point::origin()),
    {
        match self.point_out.value_out() {
            Some(p) => *p,
            None => Point { x: Number { bits: 0 }, y: Number { bits: 0 } },
        }
    }

    /// The points that the node offers.
    pub fn points_out(&self) -> (r: Vec<Point>)
        ensures
            self@.outputs[0].values == ValuesView::Point(r@),
    {
        copy_values(self.point_out.values_out())
    }

    /// Whether the input pin `id` holds values that the node has not yet
    /// consumed; not so for a pin that the node does not have.
    pub fn is_dirty(&self, id: InputPinId) -> (r: bool)
        ensures
            r == (id.0 < self@.inputs.len() && self@.inputs[id.0 as int].dirty),
    {
        if id.0 == 0 {
            self.center_in.is_dirty()
        } else if id.0 == 1 {
            self.radius_in.is_dirty()
        } else if id.0 == 2 {
            self.angle_in.is_dirty()
        } else {
            false
        }
    }

    /// Delivers `values` to the input pin `id`: centers, radii and angles,
    /// in this order.
    pub fn values_in(&mut self, id: InputPinId, values: &Values)
        ensures
            final(self)@ == accept_spec(old(self)@, id.0 as int, values@),
    {
        if id.0 == 0 {
            match values {
                Values::Point(points) => {
                    self.center_in.set_values(copy_values(points));
                },
                _ => {},
            }
        } else if id.0 == 1 {
            match values.numbers() {
                Some(numbers) => {
                    self.radius_in.set_values(numbers);
                },
                None => {},
            }
        } else if id.0 == 2 {
            match values.numbers() {
                Some(numbers) => {
                    self.angle_in.set_values(numbers);
                },
                None => {},
            }
        }
        proof {
            let want = accept_spec(old(self)@, id.0 as int, values@);
            assert(self@.inputs =~= want.inputs);
            assert(self@.outputs =~= want.outputs);
        }
    }

    /// What the node offers: its points.
    pub fn values_out(&self) -> (r: Values)
        ensures
            r@ == self@.outputs[0].values,
    {
        Values::Point(copy_values(self.point_out.values_out()))
    }
}

impl Default for PointPolarNode {
    fn default() -> (r: PointPolarNode)
        ensures
            r@ == PointPolarNode::empty_view(),
    {
        PointPolarNode::new()
    }
}

impl Node for PointPolarNode {

}

impl NodeInfo for PointPolarNode {
    open spec fn pins() -> (nat, nat) {
        (3, 1)
    }

    open spec fn name() -> Seq<char> {
        "PointPolat"@
    }

    fn inputs() -> (r: usize)
        ensures
            r == 3,
    {
        3
    }

    fn outputs() -> (r: usize)
        ensures
            r == 1,
    {
        1
    }

    fn title() -> (r: String)
        ensures
            r@ == "PointPolat"@,
    {
        "PointPolat".to_owned()
    }
}

impl NodeDowncast for PointPolarNode {
    open spec fn is_in(from: &Nodes) -> bool {
        from is PointPolar
    }

    fn try_downcast(from: &Nodes) -> (r: Option<&Self>)
        ensures
            match r {
                Some(node) => *from == Nodes::PointPolar(*node),
                None => !(from is PointPolar),
            },
    {
        match from {
            Nodes::PointPolar(node) => Some(node),
            _ => None,
        }
    }

    fn try_downcast_mut(from: &mut Nodes) -> (r: Option<&mut Self>)
        ensures
            match r {
                Some(node) => *old(from) is PointPolar && *node == old(from)->PointPolar_0 && *final(from)
                    == Nodes::PointPolar(*final(node)),
                None => !(*old(from) is PointPolar) && *final(from) == *old(from),
            },
    {
        match from {
            Nodes::PointPolar(node) => Some(node),
            _ => None,
        }
    }
}

impl EmitterNode<Point> for PointPolarNode {
    open spec fn emitted(&self) -> Seq<Point> {
        held_points(self@.outputs[0].values)
    }

    open spec fn fallback() -> Point {
        Point::origin()
    }

    fn value_out(&self) -> (r: Point) {
        self.point_out()
    }

    fn values_out(&self) -> (r: Vec<Point>) {
        self.points_out()
    }
}

} // verus!
