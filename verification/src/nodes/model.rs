use vstd::prelude::*;
use crate::nodes::constant_value::ConstantValue;
use crate::number::Number;
use crate::shapes::{Circle, Point, Shapes};
use crate::values::ValuesView;

verus! {

/// One pin as the rest of the graph sees it: the values in the form in
/// which they travel, and the dirty flag.
pub ghost struct PinView {
    pub values: ValuesView,
    pub dirty: bool,
}

/// The kind of a node, with the parameters that are not pins.
pub ghost enum NodeCore {
    Constant { value: ConstantValue, overwrite: Number },
    Sink,
    Range,
    Point,
    PointPolar,
    Circle,
    Canvas,
}

/// A node as the solver sees it: its kind and its pins, by position.
pub ghost struct NodesView {
    pub core: NodeCore,
    pub inputs: Seq<PinView>,
    pub outputs: Seq<PinView>,
}

/// The bit pattern of 400, the width of a canvas that was given none.
pub const DEFAULT_WIDTH_BITS: u64 = 0x4079000000000000;

/// The bit pattern of 300, the height of a canvas that was given none.
pub const DEFAULT_HEIGHT_BITS: u64 = 0x4072c00000000000;

/// The numbers held by a pin of numbers.
pub open spec fn held_numbers(v: ValuesView) -> Seq<Number> {
    match v {
        ValuesView::Float(s) => s,
        _ => Seq::empty(),
    }
}

/// The integers held by a pin of integers.
pub open spec fn held_counts(v: ValuesView) -> Seq<usize> {
    match v {
        ValuesView::Int(s) => s,
        _ => Seq::empty(),
    }
}

/// The shapes held by a pin of shapes.
pub open spec fn held_shapes(v: ValuesView) -> Seq<Shapes> {
    match v {
        ValuesView::Shape(s) => s,
        _ => Seq::empty(),
    }
}

/// The circles held by a pin of circles.
pub open spec fn held_circles(v: ValuesView) -> Seq<Circle> {
    match v {
        ValuesView::Circle(s) => s,
        _ => Seq::empty(),
    }
}

/// The points held by a pin of points.
pub open spec fn held_points(v: ValuesView) -> Seq<Point> {
    match v {
        ValuesView::Point(s) => s,
        _ => Seq::empty(),
    }
}

/// The value at `i` of a list that is stretched to any length: past its end
/// its last value, and `default` where it is empty.
pub open spec fn stretched<T>(s: Seq<T>, i: int, default: T) -> T {
    if 0 <= i < s.len() {
        s[i]
    } else if s.len() > 0 {
        s.last()
    } else {
        default
    }
}

/// The longer of two lengths.
pub open spec fn longer(a: nat, b: nat) -> nat {
    if a >= b {
        a
    } else {
        b
    }
}

/// The shorter of two lengths.
pub open spec fn shorter(a: nat, b: nat) -> nat {
    if a <= b {
        a
    } else {
        b
    }
}

/// How many pairs two lists of the lengths `a` and `b` give. A list of at
/// most one value is a fixed companion: it goes along with every value of
/// the other list. Two longer lists are paired up to the shorter.
pub open spec fn pairs(a: nat, b: nat) -> nat {
    if a <= 1 || b <= 1 {
        longer(a, b)
    } else {
        shorter(a, b)
    }
}

/// The points made of `xs` and `ys` pairwise. A list of one value gives that
/// value to every pair, an empty list gives zero; two longer lists are
/// paired up to the shorter.
pub open spec fn paired(xs: Seq<Number>, ys: Seq<Number>) -> Seq<Point> {
    Seq::new(
        pairs(xs.len(), ys.len()),
        |i: int| Point { x: stretched(xs, i, Number::zero()), y: stretched(ys, i, Number::zero()) },
    )
}

/// The circles made of `centers` and `radii` pairwise. A list of one value
/// gives that value to every pair, an empty list gives the origin or zero;
/// two longer lists are paired up to the shorter.
pub open spec fn circled(centers: Seq<Point>, radii: Seq<Number>) -> Seq<Circle> {
    Seq::new(
        pairs(centers.len(), radii.len()),
        |i: int|
            Circle {
                center: stretched(centers, i, Point::origin()),
                radius: stretched(radii, i, Number::zero()),
            },
    )
}

/// The same pins, all marked as consumed.
pub open spec fn cleaned(pins: Seq<PinView>) -> Seq<PinView> {
    Seq::new(pins.len(), |i: int| PinView { values: pins[i].values, dirty: false })
}

/// A pin of numbers after `v` was delivered to it: replaced by the numbers
/// that `v` carries, untouched where it carries none.
pub open spec fn numbers_received(held: PinView, v: ValuesView) -> PinView {
    match v.numbers() {
        Some(s) => PinView { values: ValuesView::Float(s), dirty: true },
        None => held,
    }
}

/// A pin of numbers after `value` was written over the first value held, or
/// as the only one where the pin held nothing. The pin becomes dirty where
/// it held nothing or held a first value that does not equal `value` as a
/// double; where it was dirty it stays so.
pub open spec fn number_written(held: PinView, value: Number) -> PinView {
    let before = held_numbers(held.values);
    PinView {
        values: ValuesView::Float(
            if before.len() == 0 {
                seq![value]
            } else {
                before.update(0, value)
            },
        ),
        dirty: held.dirty || before.len() == 0 || !value.same(before[0]),
    }
}

/// A pin of integers after `value` was written over the first value held,
/// or as the only one where the pin held nothing.
pub open spec fn count_written(held: PinView, value: usize) -> PinView {
    let before = held_counts(held.values);
    PinView {
        values: ValuesView::Int(
            if before.len() == 0 {
                seq![value]
            } else {
                before.update(0, value)
            },
        ),
        dirty: held.dirty || before.len() == 0 || before[0] != value,
    }
}

/// The node after the number `value` was written to its input pin `pin`.
pub open spec fn number_set(n: NodesView, pin: int, value: Number) -> NodesView {
    NodesView {
        core: n.core,
        inputs: n.inputs.update(pin, number_written(n.inputs[pin], value)),
        outputs: n.outputs,
    }
}

/// The node after the integer `value` was written to its input pin `pin`.
pub open spec fn count_set(n: NodesView, pin: int, value: usize) -> NodesView {
    NodesView {
        core: n.core,
        inputs: n.inputs.update(pin, count_written(n.inputs[pin], value)),
        outputs: n.outputs,
    }
}

/// A pin that holds one extent of a canvas after `v` was delivered to it:
/// the first number that `v` carries, or `default` where it carries an empty
/// list, is written over the first value held. Untouched where `v` carries
/// no numbers.
pub open spec fn extent_received(held: PinView, v: ValuesView, default: Number) -> PinView {
    match v.numbers() {
        Some(s) => number_written(
            held,
            if s.len() > 0 {
                s[0]
            } else {
                default
            },
        ),
        None => held,
    }
}

/// The input pin at position `pin` of a node of kind `core` after `v` was
/// delivered to it. A pin of numbers takes floats and integers, the count of
/// a range integers only, a pin of points points only, the shapes of a
/// canvas shapes and circles. What a pin does not take leaves it untouched,
/// and so does anything delivered to a constant or a sink.
pub open spec fn received(core: NodeCore, pin: int, held: PinView, v: ValuesView) -> PinView {
    match core {
        NodeCore::Constant { .. } => held,
        NodeCore::Sink => held,
        NodeCore::Range => if pin == 2 {
            match v {
                ValuesView::Int(s) => PinView { values: ValuesView::Int(s), dirty: true },
                _ => held,
            }
        } else {
            numbers_received(held, v)
        },
        NodeCore::Point => numbers_received(held, v),
        NodeCore::PointPolar => if pin == 0 {
            match v {
                ValuesView::Point(s) => PinView { values: ValuesView::Point(s), dirty: true },
                _ => held,
            }
        } else {
            numbers_received(held, v)
        },
        NodeCore::Circle => if pin == 0 {
            match v {
                ValuesView::Point(s) => PinView { values: ValuesView::Point(s), dirty: true },
                _ => held,
            }
        } else {
            numbers_received(held, v)
        },
        NodeCore::Canvas => if pin == 0 {
            extent_received(held, v, Number { bits: DEFAULT_WIDTH_BITS })
        } else if pin == 1 {
            extent_received(held, v, Number { bits: DEFAULT_HEIGHT_BITS })
        } else {
            match v.shapes() {
                Some(s) => PinView { values: ValuesView::Shape(s), dirty: true },
                None => held,
            }
        },
    }
}

/// The output pins of a node of kind `core` once it has recomputed from
/// `inputs`. A point pairs its two inputs, a circle its center and radius.
/// A canvas marks its image as due; a range, a polar point, a constant and
/// a sink keep what they offer.
pub open spec fn computed(core: NodeCore, inputs: Seq<PinView>, outputs: Seq<PinView>) -> Seq<
    PinView,
> {
    match core {
        NodeCore::Point => seq![
            PinView {
                values: ValuesView::Point(
                    paired(held_numbers(inputs[0].values), held_numbers(inputs[1].values)),
                ),
                dirty: true,
            },
        ],
        NodeCore::Circle => seq![
            PinView {
                values: ValuesView::Circle(
                    circled(held_points(inputs[0].values), held_numbers(inputs[1].values)),
                ),
                dirty: true,
            },
        ],
        NodeCore::Canvas => seq![PinView { values: outputs[0].values, dirty: true }],
        _ => outputs,
    }
}

/// The node after it recomputed: its outputs follow from its inputs, and
/// its inputs are consumed.
pub open spec fn recompute_spec(n: NodesView) -> NodesView {
    NodesView {
        core: n.core,
        inputs: cleaned(n.inputs),
        outputs: computed(n.core, n.inputs, n.outputs),
    }
}

/// The node after `v` was delivered to its input pin `pin`. A position that
/// the node does not have leaves it untouched.
pub open spec fn accept_spec(n: NodesView, pin: int, v: ValuesView) -> NodesView {
    if 0 <= pin < n.inputs.len() {
        NodesView {
            core: n.core,
            inputs: n.inputs.update(pin, received(n.core, pin, n.inputs[pin], v)),
            outputs: n.outputs,
        }
    } else {
        n
    }
}

/// What the node offers on its output pin `out`; an empty custom payload at
/// a position that the node does not have.
pub open spec fn emit_spec(n: NodesView, out: int) -> ValuesView {
    if 0 <= out < n.outputs.len() {
        n.outputs[out].values
    } else {
        ValuesView::Custom(Seq::empty())
    }
}

/// How many input pins a node of kind `core` has.
pub open spec fn input_count(core: NodeCore) -> nat {
    match core {
        NodeCore::Constant { .. } => 0,
        NodeCore::Sink => 1,
        NodeCore::Range => 3,
        NodeCore::Point => 2,
        NodeCore::PointPolar => 3,
        NodeCore::Circle => 2,
        NodeCore::Canvas => 3,
    }
}

/// How many output pins a node of kind `core` has.
pub open spec fn output_count(core: NodeCore) -> nat {
    match core {
        NodeCore::Constant { .. } => 1,
        NodeCore::Sink => 0,
        NodeCore::Range => 1,
        NodeCore::Point => 1,
        NodeCore::PointPolar => 1,
        NodeCore::Circle => 1,
        NodeCore::Canvas => 1,
    }
}

impl NodesView {
    /// That the node has the pins of its kind.
    pub open spec fn wf(self) -> bool {
        &&& self.inputs.len() == input_count(self.core)
        &&& self.outputs.len() == output_count(self.core)
    }
}

} // verus!
