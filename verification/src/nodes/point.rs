use vstd::prelude::*;
use crate::nodes::model::{
    accept_spec, held_numbers, held_points, number_set, paired, recompute_spec, stretched,
    NodeCore, NodesView, PinView,
};
use crate::nodes::{pairs_of, stretch_at, EmitterNode, Node, NodeDowncast, NodeInfo, Nodes};
use crate::number::Number;
use crate::pins::{InputPin, InputPinId, OPin, OutputPin};
use crate::shapes::Point;
use crate::values::{copy_values, Values, ValuesView};

verus! {

/// A node that makes points of two lists of coordinates.
pub struct PointNode {
    x_in: InputPin<Number>,
    y_in: InputPin<Number>,
    point_out: OutputPin<Point>,
}

impl View for PointNode {
    type V = NodesView;

    closed spec fn view(&self) -> NodesView {
        NodesView {
            core: NodeCore::Point,
            inputs: seq![
                PinView { values: ValuesView::Float(self.x_in@.values), dirty: self.x_in@.dirty },
                PinView { values: ValuesView::Float(self.y_in@.values), dirty: self.y_in@.dirty },
            ],
            outputs: seq![
                PinView { values: ValuesView::Point(self.point_out@.values), dirty: self.point_out@.dirty },
            ],
        }
    }
}

impl PointNode {
    /// A point node whose pins hold nothing.
    pub open spec fn empty_view() -> NodesView {
        NodesView {
            core: NodeCore::Point,
            inputs: seq![
                PinView { values: ValuesView::Float(Seq::empty()), dirty: false },
                PinView { values: ValuesView::Float(Seq::empty()), dirty: false },
            ],
            outputs: seq![PinView { values: ValuesView::Point(Seq::empty()), dirty: false }],
        }
    }

    /// A point node whose pins hold nothing.
    pub fn new() -> (r: PointNode)
        ensures
            r@ == Self::empty_view(),
    {
        let r = PointNode { x_in: InputPin::new(), y_in: InputPin::new(), point_out: OutputPin::new() };
        proof {
            assert(r@.inputs =~= Self::empty_view().inputs);
            assert(r@.outputs =~= Self::empty_view().outputs);
        }
        r
    }

    /// That the view is one of a point node.
    pub proof fn lemma_view(&self)
        ensures
            self@.core is Point,
            self@.wf(),
            self@.inputs[0].values is Float,
            self@.inputs[1].values is Float,
            self@.outputs[0].values is Point,
    {
    }

    /// Pairs the two inputs into the points that the node offers, and marks
    /// the inputs as consumed. A list of one value gives that value to every
    /// point, an empty list gives zero; two longer lists are paired up to
    /// the shorter.
    pub fn recalc(&mut self)
        ensures
            final(self)@ == recompute_spec(old(self)@),
    {
        let xs = self.x_in.values_out();
        let ys = self.y_in.values_out();
        let n = pairs_of(xs.len(), ys.len());
        let mut points: Vec<Point> = Vec::new();
        let mut i: usize = 0;
        while i < n
            invariant
                i <= n,
                points@.len() == i,
                forall|k: int|
                    0 <= k < i ==> #[trigger] points@[k] == (Point {
                        x: stretched(xs@, k, Number::zero()),
                        y: stretched(ys@, k, Number::zero()),
                    }),
            decreases n - i,
        {
            let x = stretch_at(xs, i, Number { bits: 0 });
            let y = stretch_at(ys, i, Number { bits: 0 });
            points.push(Point { x, y });
            i = i + 1;
        }
        proof {
            assert(points@ =~= paired(xs@, ys@));
        }
        self.point_out.set_values(points);
        self.x_in.clear_dirty();
        self.y_in.clear_dirty();
        proof {
            let want = recompute_spec(old(self)@);
            assert(self@.inputs =~= want.inputs);
            assert(self@.outputs =~= want.outputs);
        }
    }

    /// The first x coordinate; zero where the pin holds none.
    pub fn x(&self) -> (r: Number)
        ensures
            r == stretched(held_numbers(self@.inputs[0].values), 0, Number::zero()),
    {
        match self.x_in.value_out() {
            Some(v) => *v,
            None => Number { bits: 0 },
        }
    }

    /// The first y coordinate; zero where the pin holds none.
    pub fn y(&self) -> (r: Number)
        ensures
            r == stretched(held_numbers(self@.inputs[1].values), 0, Number::zero()),
    {
        match self.y_in.value_out() {
            Some(v) => *v,
            None => Number { bits: 0 },
        }
    }

    /// Writes the first x coordinate.
    pub fn set_x(&mut self, value: Number)
        ensures
            final(self)@ == number_set(old(self)@, 0, value),
    {
        self.x_in.set_value(value);
        proof {
            let want = number_set(old(self)@, 0, value);
            assert(self@.inputs =~= want.inputs);
            assert(self@.outputs =~= want.outputs);
        }
    }

    /// Writes the first y coordinate.
    pub fn set_y(&mut self, value: Number)
        ensures
            final(self)@ == number_set(old(self)@, 1, value),
    {
        self.y_in.set_value(value);
        proof {
            let want = number_set(old(self)@, 1, value);
            assert(self@.inputs =~= want.inputs);
            assert(self@.outputs =~= want.outputs);
        }
    }

    /// The first point that the node offers; the origin where it offers
    /// none.
    pub fn point_out(&self) -> (r: Point)
        ensures
            r == stretched(held_points(self@.outputs[0].values), 0, Point::origin()),
    {
        match self.point_out.value_out() {
            Some(p) => *p,
            None => Point { x: Number { bits: 0 }, y: Number { bits: 0 } },
        }
    }

    /// The points that the node offers.
    pub fn points_out(&self) -> (r: Vec<Point>)
        ensures
            self@.outputs[0].values == ValuesView::Point(r@),
    {
        copy_values(self.point_out.values_out())
    }

    /// Replaces what `pin` holds by the numbers that `values` carries; nothing
    /// where it carries no numbers.
    fn values_in_inner(pin: &mut InputPin<Number>, values: &Values)
        ensures
            match values@.numbers() {
                Some(s) => final(pin)@ == old(pin)@.replaced(s),
                None => final(pin)@ == old(pin)@,
            },
    {
        match values.numbers() {
            Some(numbers) => {
                pin.set_values(numbers);
            },
            None => {},
        }
    }

    /// Whether the input pin `id` holds values that the node has not yet
    /// consumed; not so for a pin that the node does not have.
    pub fn is_dirty(&self, id: InputPinId) -> (r: bool)
        ensures
            r == (id.0 < self@.inputs.len() && self@.inputs[id.0 as int].dirty),
    {
        if id.0 == 0 {
            self.x_in.is_dirty()
        } else if id.0 == 1 {
            self.y_in.is_dirty()
        } else {
            false
        }
    }

    /// Delivers `values` to the input pin `id`: the x coordinates, then the
    /// y coordinates.
    pub fn values_in(&mut self, id: InputPinId, values: &Values)
        ensures
            final(self)@ == accept_spec(old(self)@, id.0 as int, values@),
    {
        if id.0 == 0 {
            Self::values_in_inner(&mut self.x_in, values);
        } else if id.0 == 1 {
            Self::values_in_inner(&mut self.y_in, values);
        }
        proof {
            let want = accept_spec(old(self)@, id.0 as int, values@);
            assert(self@.inputs =~= want.inputs);
            assert(self@.outputs =~= want.outputs);
        }
    }

    /// What the node offers: its points.
    pub fn values_out(&self) -> (r: Values)
        ensures
            r@ == self@.outputs[0].values,
    {
        Values::Point(copy_values(self.point_out.values_out()))
    }
}

impl Default for PointNode {
    fn default() -> (r: PointNode)
        ensures
            r@ == PointNode::empty_view(),
    {
        PointNode::new()
    }
}

impl Node for PointNode {

}

impl NodeInfo for PointNode {
    open spec fn pins() -> (nat, nat) {
        (2, 1)
    }

    open spec fn name() -> Seq<char> {
        "Point"@
    }

    fn inputs() -> (r: usize)
        ensures
            r == 2,
    {
        2
    }

    fn outputs() -> (r: usize)
        ensures
            r == 1,
    {
        1
    }

    fn title() -> (r: String)
        ensures
            r@ == "Point"@,
    {
        "Point".to_owned()
    }
}

impl NodeDowncast for PointNode {
    open spec fn is_in(from: &Nodes) -> bool {
        from is Point
    }

    fn try_downcast(from: &Nodes) -> (r: Option<&Self>)
        ensures
            match r {
                Some(node) => *from == Nodes::Point(*node),
                None => !(from is Point),
            },
    {
        match from {
            Nodes::Point(node) => Some(node),
            _ => None,
        }
    }

    fn try_downcast_mut(from: &mut Nodes) -> (r: Option<&mut Self>)
        ensures
            match r {
                Some(node) => *old(from) is Point && *node == old(from)->Point_0 && *final(from)
                    == Nodes::Point(*final(node)),
                None => !(*old(from) is Point) && *final(from) == *old(from),
            },
    {
        match from {
            Nodes::Point(node) => Some(node),
            _ => None,
        }
    }
}

impl EmitterNode<Point> for PointNode {
    open spec fn emitted(&self) -> Seq<Point> {
        held_points(self@.outputs[0].values)
    }

    open spec fn fallback() -> Point {
        Point::origin()
    }

    fn value_out(&self) -> (r: Point) {
        self.point_out()
    }

    fn values_out(&self) -> (r: Vec<Point>) {
        self.points_out()
    }
}

} // verus!
