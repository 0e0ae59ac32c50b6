use vstd::prelude::*;
use crate::nodes::canvas::CanvasNode;
use crate::nodes::circle::CircleNode;
use crate::nodes::constant_value::ConstantValueNode;
use crate::nodes::model::{
    accept_spec, emit_spec, held_circles, held_numbers, held_points, input_count, output_count,
    recompute_spec, stretched, NodeCore, NodesView,
};
use crate::nodes::point::PointNode;
use crate::nodes::point_polar::PointPolarNode;
use crate::nodes::range::RangeNode;
use crate::nodes::sink::SinkNode;
use crate::number::Number;
use crate::pins::{InputPinId, OutputPinId};
use crate::shapes::{Circle, Point, Shapes};
use crate::values::{Values, ValuesView};

pub mod canvas;
pub mod circle;
pub mod constant_value;
pub mod model;
pub mod point;
pub mod point_polar;
pub mod range;
pub mod sink;

verus! {

/// The closed set of node kinds.
pub enum Nodes {
    ConstantValueNode(constant_value::ConstantValueNode),
    Sink(sink::SinkNode),
    Range(range::RangeNode),
    Point(point::PointNode),
    PointPolar(point_polar::PointPolarNode),
    Circle(circle::CircleNode),
    Canvas(canvas::CanvasNode),
}

impl View for Nodes {
    type V = NodesView;

    open spec fn view(&self) -> NodesView {
        match self {
            Nodes::ConstantValueNode(node) => node@,
            Nodes::Sink(node) => node@,
            Nodes::Range(node) => node@,
            Nodes::Point(node) => node@,
            Nodes::PointPolar(node) => node@,
            Nodes::Circle(node) => node@,
            Nodes::Canvas(node) => node@,
        }
    }
}

/// The title under which a node of kind `core` is shown.
pub open spec fn title_spec(core: NodeCore) -> Seq<char> {
    match core {
        NodeCore::Constant { .. } => "Constant"@,
        NodeCore::Sink => "Sink"@,
        NodeCore::Range => "Range"@,
        NodeCore::Point => "Point"@,
        NodeCore::PointPolar => "PointPolat"@,
        NodeCore::Circle => "Circle"@,
        NodeCore::Canvas => "Canvas"@,
    }
}

impl Nodes {
    /// That the view is the one of a node of the kind that `self` is, with
    /// the pins of that kind.
    pub proof fn lemma_view(&self)
        ensures
            self@.wf(),
            self is ConstantValueNode <==> self@.core is Constant,
            self is Sink <==> self@.core is Sink,
            self is Range <==> self@.core is Range,
            self is Point <==> self@.core is Point,
            self is PointPolar <==> self@.core is PointPolar,
            self is Circle <==> self@.core is Circle,
            self is Canvas <==> self@.core is Canvas,
    {
        match self {
            Nodes::ConstantValueNode(node) => node.lemma_view(),
            Nodes::Sink(node) => {},
            Nodes::Range(node) => node.lemma_view(),
            Nodes::Point(node) => node.lemma_view(),
            Nodes::PointPolar(node) => node.lemma_view(),
            Nodes::Circle(node) => node.lemma_view(),
            Nodes::Canvas(node) => node.lemma_view(),
        }
    }

    /// The node recomputes, as far as that is done here: a point and a
    /// circle offer what follows from what their input pins hold, and the
    /// input pins of every node are marked as consumed. A range and a polar
    /// point keep what they offer and a canvas marks its image as due: their
    /// values take arithmetic on doubles or drawing, and come from the
    /// embedding program through the `recalc` of their kind. A constant and a
    /// sink stay as they are.
    pub fn solve(&mut self)
        ensures
            final(self)@ == recompute_spec(old(self)@),
    {
        proof {
            old(self).lemma_view();
        }
        match self {
            Nodes::ConstantValueNode(node) => {
                proof {
                    node.lemma_view();
                    assert(recompute_spec(node@).inputs =~= node@.inputs);
                }
            },
            Nodes::Sink(node) => {
                proof {
                    assert(recompute_spec(node@).inputs =~= node@.inputs);
                }
            },
            Nodes::Range(node) => node.consume_inputs(),
            Nodes::Point(node) => node.recalc(),
            Nodes::PointPolar(node) => node.consume_inputs(),
            Nodes::Circle(node) => node.recalc(),
            Nodes::Canvas(node) => node.mark_due(),
        }
    }

    /// Delivers `inputs` to the input pin `id`. What the pin does not take,
    /// and a pin that the node does not have, leave the node untouched.
    pub fn push_inputs(&mut self, id: InputPinId, inputs: &Values)
        ensures
            final(self)@ == accept_spec(old(self)@, id.0 as int, inputs@),
    {
        match self {
            Nodes::ConstantValueNode(node) => {
                proof {
                    node.lemma_view();
                }
            },
            Nodes::Sink(node) => {
                proof {
                    assert(accept_spec(node@, id.0 as int, inputs@).inputs =~= node@.inputs);
                }
            },
            Nodes::Range(node) => node.values_in(id, inputs),
            Nodes::Point(node) => node.values_in(id, inputs),
            Nodes::PointPolar(node) => node.values_in(id, inputs),
            Nodes::Circle(node) => node.values_in(id, inputs),
            Nodes::Canvas(node) => node.values_in(id, inputs),
        }
    }

    /// Whether the input pin `id` holds values that the node has not yet
    /// consumed; not so for a pin that the node does not have.
    pub fn is_dirty(&self, id: InputPinId) -> (r: bool)
        ensures
            r == (id.0 < self@.inputs.len() && self@.inputs[id.0 as int].dirty),
    {
        proof {
            self.lemma_view();
        }
        match self {
            Nodes::ConstantValueNode(_) => false,
            Nodes::Sink(_) => false,
            Nodes::Range(node) => node.is_dirty(id),
            Nodes::Point(node) => node.is_dirty(id),
            Nodes::PointPolar(node) => node.is_dirty(id),
            Nodes::Circle(node) => node.is_dirty(id),
            Nodes::Canvas(node) => node.is_dirty(id),
        }
    }

    /// What the node offers on its output pin `id`; an empty custom payload
    /// for a pin that the node does not have.
    pub fn values_out(&self, id: OutputPinId) -> (r: Values)
        ensures
            r@ == emit_spec(self@, id.0 as int),
    {
        proof {
            self.lemma_view();
        }
        if id.0 >= self.outputs() {
            let r = Values::Custom(Vec::new());
            proof {
                assert(r@->Custom_0 =~= Seq::empty());
            }
            return r;
        }
        match self {
            Nodes::ConstantValueNode(node) => node.values_out(),
            Nodes::Sink(_) => Values::Custom(Vec::new()),
            Nodes::Range(node) => node.values_out(),
            Nodes::Point(node) => node.values_out(),
            Nodes::PointPolar(node) => node.values_out(),
            Nodes::Circle(node) => node.values_out(),
            Nodes::Canvas(node) => node.values_out(),
        }
    }

    /// Delivers what `self` offers on its output pin `out_id` to the input
    /// pin `in_id` of `other`.
    pub fn pipe_into(&self, out_id: OutputPinId, other: &mut Self, in_id: InputPinId)
        ensures
            final(other)@ == accept_spec(
                old(other)@,
                in_id.0 as int,
                emit_spec(self@, out_id.0 as int),
            ),
    {
        let values = self.values_out(out_id);
        other.push_inputs(in_id, &values);
    }

    /// The output pins of the node: their positions, from zero.
    pub fn out_ids(&self) -> (r: Vec<OutputPinId>)
        ensures
            r@ == Seq::new(self@.outputs.len(), |i: int| OutputPinId(i as usize)),
    {
        let n = self.outputs();
        let mut ids: Vec<OutputPinId> = Vec::new();
        let mut i: usize = 0;
        while i < n
            invariant
                i <= n,
                ids@.len() == i,
                forall|k: int| 0 <= k < i ==> #[trigger] ids@[k] == OutputPinId(k as usize),
            decreases n - i,
        {
            ids.push(OutputPinId(i));
            i = i + 1;
        }
        proof {
            assert(ids@ =~= Seq::new(self@.outputs.len(), |i: int| OutputPinId(i as usize)));
        }
        ids
    }

    /// How many input pins the node has.
    pub fn inputs(&self) -> (r: usize)
        ensures
            r == self@.inputs.len(),
            r == input_count(self@.core),
    {
        proof {
            self.lemma_view();
        }
        match self {
            Self::ConstantValueNode(_) => ConstantValueNode::inputs(),
            Self::Sink(_) => SinkNode::inputs(),
            Self::Range(_) => RangeNode::inputs(),
            Self::Point(_) => PointNode::inputs(),
            Self::PointPolar(_) => PointPolarNode::inputs(),
            Self::Circle(_) => CircleNode::inputs(),
            Self::Canvas(_) => CanvasNode::inputs(),
        }
    }

    /// How many output pins the node has.
    pub fn outputs(&self) -> (r: usize)
        ensures
            r == self@.outputs.len(),
            r == output_count(self@.core),
    {
        proof {
            self.lemma_view();
        }
        match self {
            Self::ConstantValueNode(_) => ConstantValueNode::outputs(),
            Self::Sink(_) => SinkNode::outputs(),
            Self::Range(_) => RangeNode::outputs(),
            Self::Point(_) => PointNode::outputs(),
            Self::PointPolar(_) => PointPolarNode::outputs(),
            Self::Circle(_) => CircleNode::outputs(),
            Self::Canvas(_) => CanvasNode::outputs(),
        }
    }

    /// The title under which the node is shown.
    pub fn title(&self) -> (r: String)
        ensures
            r@ == title_spec(self@.core),
    {
        proof {
            self.lemma_view();
        }
        match self {
            Self::ConstantValueNode(_) => ConstantValueNode::title(),
            Self::Sink(_) => SinkNode::title(),
            Self::Range(_) => RangeNode::title(),
            Self::Point(_) => PointNode::title(),
            Self::PointPolar(_) => PointPolarNode::title(),
            Self::Circle(_) => CircleNode::title(),
            Self::Canvas(_) => CanvasNode::title(),
        }
    }

    /// The first number that a constant or a range offers, zero where a
    /// range offers none; nothing for a node of another kind.
    pub fn try_get_float(&self) -> (r: Option<Number>)
        ensures
            r == (if self@.core is Constant || self@.core is Range {
                Some(stretched(held_numbers(self@.outputs[0].values), 0, Number::zero()))
            } else {
                None
            }),
    {
        proof {
            self.lemma_view();
        }
        match self {
            Self::ConstantValueNode(node) => Some(node.number_out()),
            Self::Range(node) => Some(node.try_get_number()),
            _ => None,
        }
    }

    /// The numbers that a constant or a range offers; nothing for a node of
    /// another kind.
    pub fn try_get_floats(&self) -> (r: Option<Vec<Number>>)
        ensures
            match r {
                Some(numbers) => (self@.core is Constant || self@.core is Range)
                    && self@.outputs[0].values == ValuesView::Float(numbers@),
                None => !(self@.core is Constant || self@.core is Range),
            },
    {
        proof {
            self.lemma_view();
        }
        match self {
            Self::ConstantValueNode(node) => Some(node.try_get_numbers()),
            Self::Range(node) => Some(node.get_numbers()),
            _ => None,
        }
    }

    /// The first point that a point node or a polar point node offers, the
    /// origin where it offers none; nothing for a node of another kind.
    pub fn try_get_point(&self) -> (r: Option<Point>)
        ensures
            r == (if self@.core is Point || self@.core is PointPolar {
                Some(stretched(held_points(self@.outputs[0].values), 0, Point::origin()))
            } else {
                None
            }),
    {
        proof {
            self.lemma_view();
        }
        match self {
            Self::Point(node) => Some(node.point_out()),
            Self::PointPolar(node) => Some(node.point_out()),
            _ => None,
        }
    }

    /// The points that a point node or a polar point node offers; nothing
    /// for a node of another kind.
    pub fn try_get_points(&self) -> (r: Option<Vec<Point>>)
        ensures
            match r {
                Some(points) => (self@.core is Point || self@.core is PointPolar)
                    && self@.outputs[0].values == ValuesView::Point(points@),
                None => !(self@.core is Point || self@.core is PointPolar),
            },
    {
        proof {
            self.lemma_view();
        }
        match self {
            Self::Point(node) => Some(node.points_out()),
            Self::PointPolar(node) => Some(node.points_out()),
            _ => None,
        }
    }

    /// The first circle that a circle node offers, as a shape; nothing for a
    /// node of another kind.
    pub fn try_get_shape(&self) -> (r: Option<Shapes>)
        ensures
            r == (if self@.core is Circle {
                Some(
                    Shapes::Circle(
                        stretched(held_circles(self@.outputs[0].values), 0, Circle::empty()),
                    ),
                )
            } else {
                None
            }),
    {
        proof {
            self.lemma_view();
        }
        match self {
            Self::Circle(node) => Some(node.shape_out()),
            _ => None,
        }
    }

    /// The circles that a circle node offers, as shapes; nothing for a node
    /// of another kind.
    pub fn try_get_shapes(&self) -> (r: Option<Vec<Shapes>>)
        ensures
            match r {
                Some(shapes) => self@.core is Circle && shapes@ == held_circles(
                    self@.outputs[0].values,
                ).map_values(|c: Circle| Shapes::Circle(c)),
                None => !(self@.core is Circle),
            },
    {
        proof {
            self.lemma_view();
        }
        match self {
            Self::Circle(node) => Some(node.shapes_out()),
            _ => None,
        }
    }
}

/// How many pairs two lists of the lengths `a` and `b` give: the longer
/// length where one list has at most one value, else the shorter.
pub fn pairs_of(a: usize, b: usize) -> (r: usize)
    ensures
        r == model::pairs(a as nat, b as nat),
{
    if a <= 1 || b <= 1 {
        if a >= b {
            a
        } else {
            b
        }
    } else if a <= b {
        a
    } else {
        b
    }
}

/// The value at `i` of a list that is stretched to any length: past its end
/// its last value, and `default` where it is empty.
pub fn stretch_at<T: Copy>(values: &Vec<T>, i: usize, default: T) -> (r: T)
    ensures
        r == model::stretched(values@, i as int, default),
{
    if i < values.len() {
        values[i]
    } else if values.len() > 0 {
        values[values.len() - 1]
    } else {
        default
    }
}

/// What every kind of node is.
pub trait Node {

}

/// Getting at the node of one kind inside a [`Nodes`].
pub trait NodeDowncast: Node + Sized {
    /// That `from` is a node of this kind.
    spec fn is_in(from: &Nodes) -> bool;

    /// The node inside `from`, where it is of this kind.
    fn try_downcast(from: &Nodes) -> (r: Option<&Self>)
        ensures
            r is Some <==> Self::is_in(from),
    ;

    /// The node inside `from`, to be changed in place, where it is of this
    /// kind.
    fn try_downcast_mut(from: &mut Nodes) -> (r: Option<&mut Self>)
        ensures
            r is Some <==> Self::is_in(old(from)),
    ;
}

/// What every node of one kind has in common.
pub trait NodeInfo: Node {
    /// How many input pins and how many output pins a node of this kind has.
    spec fn pins() -> (nat, nat);

    /// The title under which a node of this kind is shown.
    spec fn name() -> Seq<char>;

    /// How many input pins a node of this kind has.
    fn inputs() -> (r: usize)
        ensures
            r == Self::pins().0,
    ;

    /// How many output pins a node of this kind has.
    fn outputs() -> (r: usize)
        ensures
            r == Self::pins().1,
    ;

    /// The title under which a node of this kind is shown.
    fn title() -> (r: String)
        ensures
            r@ == Self::name(),
    ;
}

/// A node that offers numbers.
pub trait NumberEmitterNode {
    /// The numbers that the node offers.
    spec fn numbers(&self) -> Seq<Number>;

    /// The first number offered; zero where none is.
    fn try_get_number(&self) -> (r: Number)
        ensures
            r == model::stretched(self.numbers(), 0, Number::zero()),
    ;

    /// All numbers offered.
    fn try_get_numbers(&self) -> (r: Vec<Number>)
        ensures
            r@ == self.numbers(),
    ;
}

/// A node that offers values of type `T`.
pub trait EmitterNode<T> {
    /// The values that the node offers.
    spec fn emitted(&self) -> Seq<T>;

    /// What stands for the first value where the node offers none.
    spec fn fallback() -> T;

    /// The first value offered.
    fn value_out(&self) -> (r: T)
        ensures
            r == model::stretched(self.emitted(), 0, Self::fallback()),
    ;

    /// All values offered.
    fn values_out(&self) -> (r: Vec<T>)
        ensures
            r@ == self.emitted(),
    ;
}

} // verus!
