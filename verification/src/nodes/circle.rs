use vstd::prelude::*;
use crate::nodes::model::{
    accept_spec, circled, held_circles, held_numbers, number_set, recompute_spec, stretched,
    NodeCore, NodesView, PinView,
};
use crate::nodes::{pairs_of, stretch_at, EmitterNode, Node, NodeDowncast, NodeInfo, Nodes};
use crate::number::Number;
use crate::pins::{InputPin, InputPinId, OPin, OutputPin};
use crate::shapes::{Circle, Point, Shapes};
use crate::values::{copy_values, Values, ValuesView};

verus! {

/// A node that makes circles of a list of centers and a list of radii.
pub struct CircleNode {
    center_in: InputPin<Point>,
    radius_in: InputPin<Number>,
    circle_out: OutputPin<Circle>,
}

impl View for CircleNode {
    type V = NodesView;

    closed spec fn view(&self) -> NodesView {
        NodesView {
            core: NodeCore::Circle,
            inputs: seq![
                PinView { values: ValuesView::Point(self.center_in@.values), dirty: self.center_in@.dirty },
                PinView { values: ValuesView::Float(self.radius_in@.values), dirty: self.radius_in@.dirty },
            ],
            outputs: seq![
                PinView { values: ValuesView::Circle(self.circle_out@.values), dirty: self.circle_out@.dirty },
            ],
        }
    }
}

impl CircleNode {
    /// A circle node whose pins hold nothing.
    pub open spec fn empty_view() -> NodesView {
        NodesView {
            core: NodeCore::Circle,
            inputs: seq![
                PinView { values: ValuesView::Point(Seq::empty()), dirty: false },
                PinView { values: ValuesView::Float(Seq::empty()), dirty: false },
            ],
            outputs: seq![PinView { values: ValuesView::Circle(Seq::empty()), dirty: false }],
        }
    }

    /// A circle node whose pins hold nothing.
    pub fn new() -> (r: CircleNode)
        ensures
            r@ == Self::empty_view(),
    {
        let r = CircleNode {
            center_in: InputPin::new(),
            radius_in: InputPin::new(),
            circle_out: OutputPin::new(),
        };
        proof {
            assert(r@.inputs =~= Self::empty_view().inputs);
            assert(r@.outputs =~= Self::empty_view().outputs);
        }
        r
    }

    /// That the view is one of a circle node.
    pub proof fn lemma_view(&self)
        ensures
            self@.core is Circle,
            self@.wf(),
            self@.inputs[0].values is Point,
            self@.inputs[1].values is Float,
            self@.outputs[0].values is Circle,
    {
    }

    /// Pairs centers and radii into the circles that the node offers, and
    /// marks the inputs as consumed. A list of one value gives that value to
    /// every circle, an empty list gives the origin or zero; two longer lists
    /// are paired up to the shorter.
    pub fn recalc(&mut self)
        ensures
            final(self)@ == recompute_spec(old(self)@),
    {
        let centers = self.center_in.values_out();
        let radii = self.radius_in.values_out();
        let n = pairs_of(centers.len(), radii.len());
        let origin = Point { x: Number { bits: 0 }, y: Number { bits: 0 } };
        let mut circles: Vec<Circle> = Vec::new();
        let mut i: usize = 0;
        while i < n
            invariant
                i <= n,
                origin == Point::origin(),
                circles@.len() == i,
                forall|k: int|
                    0 <= k < i ==> #[trigger] circles@[k] == (Circle {
                        center: stretched(centers@, k, Point::origin()),
                        radius: stretched(radii@, k, Number::zero()),
                    }),
            decreases n - i,
        {
            let center = stretch_at(centers, i, origin);
            let radius = stretch_at(radii, i, Number { bits: 0 });
            circles.push(Circle { center, radius });
            i = i + 1;
        }
        proof {
            assert(circles@ =~= circled(centers@, radii@));
        }
        self.circle_out.set_values(circles);
        self.center_in.clear_dirty();
        self.radius_in.clear_dirty();
        proof {
            let want = recompute_spec(old(self)@);
            assert(self@.inputs =~= want.inputs);
            assert(self@.outputs =~= want.outputs);
        }
    }

    /// The first radius; zero where the pin holds none.
    pub fn radius(&self) -> (r: Number)
        ensures
            r == stretched(held_numbers(self@.inputs[1].values), 0, Number::zero()),
    {
        match self.radius_in.value_out() {
            Some(v) => *v,
            None => Number { bits: 0 },
        }
    }

    /// Writes the first radius.
    pub fn set_radius(&mut self, value: Number)
        ensures
            final(self)@ == number_set(old(self)@, 1, value),
    {
        self.radius_in.set_value(value);
        proof {
            let want = number_set(old(self)@, 1, value);
            assert(self@.inputs =~= want.inputs);
            assert(self@.outputs =~= want.outputs);
        }
    }

    /// The first circle that the node offers; the circle of radius zero at
    /// the origin where it offers none.
    pub fn circle_out(&self) -> (r: Circle)
        ensures
            r == stretched(held_circles(self@.outputs[0].values), 0, Circle::empty()),
    {
        match self.circle_out.value_out() {
            Some(c) => *c,
            None => Circle {
                center: Point { x: Number { bits: 0 }, y: Number { bits: 0 } },
                radius: Number { bits: 0 },
            },
        }
    }

    /// The first circle that the node offers, as a shape.
    pub fn shape_out(&self) -> (r: Shapes)
        ensures
            r == Shapes::Circle(
                stretched(held_circles(self@.outputs[0].values), 0, Circle::empty()),
            ),
    {
        Shapes::Circle(self.circle_out())
    }

    /// The circles that the node offers, as shapes.
    pub fn shapes_out(&self) -> (r: Vec<Shapes>)
        ensures
            r@ == held_circles(self@.outputs[0].values).map_values(|c: Circle| Shapes::Circle(c)),
    {
        let circles = self.circle_out.values_out();
        let mut shapes: Vec<Shapes> = Vec::new();
        let mut i: usize = 0;
        while i < circles.len()
            invariant
                i <= circles@.len(),
                shapes@.len() == i,
                forall|k: int| 0 <= k < i ==> shapes@[k] == Shapes::Circle(#[trigger] circles@[k]),
            decreases circles@.len() - i,
        {
            shapes.push(Shapes::Circle(circles[i]));
            i = i + 1;
        }
        proof {
            assert(shapes@ =~= circles@.map_values(|c: Circle| Shapes::Circle(c)));
        }
        shapes
    }

    /// Whether the input pin `id` holds values that the node has not yet
    /// consumed; not so for a pin that the node does not have.
    pub fn is_dirty(&self, id: InputPinId) -> (r: bool)
        ensures
            r == (id.0 < self@.inputs.len() && self@.inputs[id.0 as int].dirty),
    {
        if id.0 == 0 {
            self.center_in.is_dirty()
        } else if id.0 == 1 {
            self.radius_in.is_dirty()
        } else {
            false
        }
    }

    /// Delivers `values` to the input pin `id`: the centers, then the radii.
    pub fn values_in(&mut self, id: InputPinId, values: &Values)
        ensures
            final(self)@ == accept_spec(old(self)@, id.0 as int, values@),
    {
        if id.0 == 0 {
            match values {
                Values::Point(points) => {
                    self.center_in.set_values(copy_values(points));
                },
                _ => {},
            }
        } else if id.0 == 1 {
            match values.numbers() {
                Some(numbers) => {
                    self.radius_in.set_values(numbers);
                },
                None => {},
            }
        }
        proof {
            let want = accept_spec(old(self)@, id.0 as int, values@);
            assert(self@.inputs =~= want.inputs);
            assert(self@.outputs =~= want.outputs);
        }
    }

    /// What the node offers: its circles.
    pub fn values_out(&self) -> (r: Values)
        ensures
            r@ == self@.outputs[0].values,
    {
        Values::Circle(copy_values(self.circle_out.values_out()))
    }
}

impl Default for CircleNode {
    fn default() -> (r: CircleNode)
        ensures
            r@ == CircleNode::empty_view(),
    {
        CircleNode::new()
    }
}

impl Node for CircleNode {

}

impl NodeInfo for CircleNode {
    open spec fn pins() -> (nat, nat) {
        (2, 1)
    }

    open spec fn name() -> Seq<char> {
        "Circle"@
    }

    fn inputs() -> (r: usize)
        ensures
            r == 2,
    {
        2
    }

    fn outputs() -> (r: usize)
        ensures
            r == 1,
    {
        1
    }

    fn title() -> (r: String)
        ensures
            r@ == "Circle"@,
    {
        "Circle".to_owned()
    }
}

impl NodeDowncast for CircleNode {
    open spec fn is_in(from: &Nodes) -> bool {
        from is Circle
    }

    fn try_downcast(from: &Nodes) -> (r: Option<&Self>)
        ensures
            match r {
                Some(node) => *from == Nodes::Circle(*node),
                None => !(from is Circle),
            },
    {
        match from {
            Nodes::Circle(node) => Some(node),
            _ => None,
        }
    }

    fn try_downcast_mut(from: &mut Nodes) -> (r: Option<&mut Self>)
        ensures
            match r {
                Some(node) => *old(from) is Circle && *node == old(from)->Circle_0 && *final(from)
                    == Nodes::Circle(*final(node)),
                None => !(*old(from) is Circle) && *final(from) == *old(from),
            },
    {
        match from {
            Nodes::Circle(node) => Some(node),
            _ => None,
        }
    }
}

impl EmitterNode<Shapes> for CircleNode {
    open spec fn emitted(&self) -> Seq<Shapes> {
        held_circles(self@.outputs[0].values).map_values(|c: Circle| Shapes::Circle(c))
    }

    open spec fn fallback() -> Shapes {
        Shapes::Circle(Circle::empty())
    }

    fn value_out(&self) -> (r: Shapes) {
        self.shape_out()
    }

    fn values_out(&self) -> (r: Vec<Shapes>) {
        self.shapes_out()
    }
}

} // verus!
