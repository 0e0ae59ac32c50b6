use vstd::prelude::*;
use crate::nodes::model::{
    accept_spec, cleaned, held_numbers, held_shapes, number_set, recompute_spec, stretched, NodeCore,
    NodesView, PinView, DEFAULT_HEIGHT_BITS, DEFAULT_WIDTH_BITS,
};
use crate::nodes::{Node, NodeDowncast, NodeInfo, Nodes};
use crate::number::Number;
use crate::pins::{InputPin, InputPinId, OPin};
use crate::shapes::Shapes;
use crate::values::{copy_values, Values, ValuesView};

verus! {

/// A node that shows the shapes it receives as an image.
///
/// It holds the extents of the image, the shapes, and the bytes of the image
/// as it was last drawn. Drawing is left to the embedding program, which
/// hands what it drew to [`CanvasNode::recalc`]; a turn of the node in a
/// solve only marks the image as due.
pub struct CanvasNode {
    width: InputPin<Number>,
    height: InputPin<Number>,
    shapes: InputPin<Shapes>,
    image_buffer: Vec<u8>,
    image_changed: bool,
}

impl View for CanvasNode {
    type V = NodesView;

    closed spec fn view(&self) -> NodesView {
        NodesView {
            core: NodeCore::Canvas,
            inputs: seq![
                PinView { values: ValuesView::Float(self.width@.values), dirty: self.width@.dirty },
                PinView { values: ValuesView::Float(self.height@.values), dirty: self.height@.dirty },
                PinView { values: ValuesView::Shape(self.shapes@.values), dirty: self.shapes@.dirty },
            ],
            outputs: seq![
                PinView {
                    values: ValuesView::Custom(seq![self.image_buffer@]),
                    dirty: self.image_changed,
                },
            ],
        }
    }
}

impl CanvasNode {
    /// A canvas whose pins hold nothing and that has no image yet.
    pub open spec fn empty_view() -> NodesView {
        NodesView {
            core: NodeCore::Canvas,
            inputs: seq![
                PinView { values: ValuesView::Float(Seq::empty()), dirty: false },
                PinView { values: ValuesView::Float(Seq::empty()), dirty: false },
                PinView { values: ValuesView::Shape(Seq::empty()), dirty: false },
            ],
            outputs: seq![
                PinView { values: ValuesView::Custom(seq![Seq::<u8>::empty()]), dirty: false },
            ],
        }
    }

    /// A canvas whose pins hold nothing and that has no image yet.
    pub fn new() -> (r: CanvasNode)
        ensures
            r@ == Self::empty_view(),
    {
        let r = CanvasNode {
            width: InputPin::new(),
            height: InputPin::new(),
            shapes: InputPin::new(),
            image_buffer: Vec::new(),
            image_changed: false,
        };
        proof {
            assert(r@.inputs =~= Self::empty_view().inputs);
            assert(r@.outputs =~= Self::empty_view().outputs);
        }
        r
    }

    /// That the view is one of a canvas.
    pub proof fn lemma_view(&self)
        ensures
            self@.core is Canvas,
            self@.wf(),
            self@.inputs[0].values is Float,
            self@.inputs[1].values is Float,
            self@.inputs[2].values is Shape,
            self@.outputs[0].values is Custom,
    {
    }

    /// The width of the image: the first value of the pin, 400 where it
    /// holds none.
    pub fn width(&self) -> (r: Number)
        ensures
            r == stretched(
                held_numbers(self@.inputs[0].values),
                0,
                Number { bits: DEFAULT_WIDTH_BITS },
            ),
    {
        match self.width.value_out() {
            Some(w) => *w,
            None => Number { bits: DEFAULT_WIDTH_BITS },
        }
    }

    /// The height of the image: the first value of the pin, 300 where it
    /// holds none.
    pub fn height(&self) -> (r: Number)
        ensures
            r == stretched(
                held_numbers(self@.inputs[1].values),
                0,
                Number { bits: DEFAULT_HEIGHT_BITS },
            ),
    {
        match self.height.value_out() {
            Some(h) => *h,
            None => Number { bits: DEFAULT_HEIGHT_BITS },
        }
    }

    /// Writes the width of the image.
    pub fn set_width(&mut self, value: Number)
        ensures
            final(self)@ == number_set(old(self)@, 0, value),
    {
        self.width.set_value(value);
        proof {
            let want = number_set(old(self)@, 0, value);
            assert(self@.inputs =~= want.inputs);
            assert(self@.outputs =~= want.outputs);
        }
    }

    /// Writes the height of the image.
    pub fn set_height(&mut self, value: Number)
        ensures
            final(self)@ == number_set(old(self)@, 1, value),
    {
        self.height.set_value(value);
        proof {
            let want = number_set(old(self)@, 1, value);
            assert(self@.inputs =~= want.inputs);
            assert(self@.outputs =~= want.outputs);
        }
    }

    /// The shapes to draw.
    pub fn shapes(&self) -> (r: Vec<Shapes>)
        ensures
            r@ == held_shapes(self@.inputs[2].values),
    {
        copy_values(self.shapes.values_out())
    }

    /// Whether the image is due: the node recomputed since an image was
    /// stored.
    pub fn image_changed(&self) -> (r: bool)
        ensures
            r == self@.outputs[0].dirty,
    {
        self.image_changed
    }

    /// The bytes of the image as it was last stored.
    pub fn image(&self) -> (r: Vec<u8>)
        ensures
            self@.outputs[0].values == ValuesView::Custom(seq![r@]),
    {
        copy_values(&self.image_buffer)
    }

    /// Stores `image` as the image drawn, which is then no longer due.
    pub fn set_image(&mut self, image: Vec<u8>)
        ensures
            final(self)@ == (NodesView {
                core: old(self)@.core,
                inputs: old(self)@.inputs,
                outputs: seq![PinView { values: ValuesView::Custom(seq![image@]), dirty: false }],
            }),
    {
        self.image_buffer = image;
        self.image_changed = false;
        proof {
            assert(self@.inputs =~= old(self)@.inputs);
            assert(self@.outputs =~= seq![
                PinView { values: ValuesView::Custom(seq![image@]), dirty: false },
            ]);
        }
    }

    /// Stores `image` as the image drawn, marks it as changed and the inputs
    /// as consumed. `image` is what the embedding program drew from the
    /// extents and the shapes: drawing is not done here.
    pub fn recalc(&mut self, image: Vec<u8>)
        ensures
            final(self)@ == (NodesView {
                core: old(self)@.core,
                inputs: cleaned(old(self)@.inputs),
                outputs: seq![PinView { values: ValuesView::Custom(seq![image@]), dirty: true }],
            }),
    {
        self.set_image(image);
        self.mark_due();
        proof {
            assert(self@.outputs =~= seq![
                PinView { values: ValuesView::Custom(seq![image@]), dirty: true },
            ]);
        }
    }

    /// Marks the image as due and the inputs as consumed. The image is left
    /// as it is.
    pub fn mark_due(&mut self)
        ensures
            final(self)@ == recompute_spec(old(self)@),
    {
        self.image_changed = true;
        self.width.clear_dirty();
        self.height.clear_dirty();
        self.shapes.clear_dirty();
        proof {
            let want = recompute_spec(old(self)@);
            assert(self@.inputs =~= want.inputs);
            assert(self@.outputs =~= want.outputs);
        }
    }

    /// Writes the first number that `values` carries, or `default` where it
    /// carries an empty list, to `pin`; nothing where it carries no numbers.
    fn extent_in(pin: &mut InputPin<Number>, values: &Values, default: Number)
        ensures
            match values@.numbers() {
                Some(s) => {
                    let first = if s.len() > 0 {
                        s[0]
                    } else {
                        default
                    };
                    final(pin)@ == old(pin)@.written(
                        first,
                        old(pin)@.values.len() > 0 && !first.same(old(pin)@.values[0]),
                    )
                },
                None => final(pin)@ == old(pin)@,
            },
    {
        match values.numbers() {
            Some(numbers) => {
                let first = if numbers.len() > 0 {
                    numbers[0]
                } else {
                    default
                };
                pin.set_value(first);
            },
            None => {},
        }
    }

    /// Whether the input pin `id` holds values that the node has not yet
    /// consumed; not so for a pin that the node does not have.
    pub fn is_dirty(&self, id: InputPinId) -> (r: bool)
        ensures
            r == (id.0 < self@.inputs.len() && self@.inputs[id.0 as int].dirty),
    {
        if id.0 == 0 {
            self.width.is_dirty()
        } else if id.0 == 1 {
            self.height.is_dirty()
        } else if id.0 == 2 {
            self.shapes.is_dirty()
        } else {
            false
        }
    }

    /// Delivers `values` to the input pin `id`: width, height and shapes, in
    /// this order.
    pub fn values_in(&mut self, id: InputPinId, values: &Values)
        ensures
            final(self)@ == accept_spec(old(self)@, id.0 as int, values@),
    {
        if id.0 == 0 {
            Self::extent_in(&mut self.width, values, Number { bits: DEFAULT_WIDTH_BITS });
        } else if id.0 == 1 {
            Self::extent_in(&mut self.height, values, Number { bits: DEFAULT_HEIGHT_BITS });
        } else if id.0 == 2 {
            match values.shapes() {
                Some(shapes) => {
                    self.shapes.set_values(shapes);
                },
                None => {},
            }
        }
        proof {
            let want = accept_spec(old(self)@, id.0 as int, values@);
            assert(self@.inputs =~= want.inputs);
            assert(self@.outputs =~= want.outputs);
        }
    }

    /// What the node offers: the bytes of its image, as one custom payload.
    pub fn values_out(&self) -> (r: Values)
        ensures
            r@ == self@.outputs[0].values,
    {
        let mut payloads: Vec<Vec<u8>> = Vec::new();
        payloads.push(copy_values(&self.image_buffer));
        let r = Values::Custom(payloads);
        proof {
            assert(r@->Custom_0 =~= seq![self.image_buffer@]);
        }
        r
    }
}

impl Default for CanvasNode {
    fn default() -> (r: CanvasNode)
        ensures
            r@ == CanvasNode::empty_view(),
    {
        CanvasNode::new()
    }
}

impl Node for CanvasNode {

}

impl NodeInfo for CanvasNode {
    open spec fn pins() -> (nat, nat) {
        (3, 1)
    }

    open spec fn name() -> Seq<char> {
        "Canvas"@
    }

    fn inputs() -> (r: usize)
        ensures
            r == 3,
    {
        3
    }

    fn outputs() -> (r: usize)
        ensures
            r == 1,
    {
        1
    }

    fn title() -> (r: String)
        ensures
            r@ == "Canvas"@,
    {
        "Canvas".to_owned()
    }
}

impl NodeDowncast for CanvasNode {
    open spec fn is_in(from: &Nodes) -> bool {
        from is Canvas
    }

    fn try_downcast(from: &Nodes) -> (r: Option<&Self>)
        ensures
            match r {
                Some(node) => *from == Nodes::Canvas(*node),
                None => !(from is Canvas),
            },
    {
        match from {
            Nodes::Canvas(node) => Some(node),
            _ => None,
        }
    }

    fn try_downcast_mut(from: &mut Nodes) -> (r: Option<&mut Self>)
        ensures
            match r {
                Some(node) => *old(from) is Canvas && *node == old(from)->Canvas_0 && *final(from)
                    == Nodes::Canvas(*final(node)),
                None => !(*old(from) is Canvas) && *final(from) == *old(from),
            },
    {
        match from {
            Nodes::Canvas(node) => Some(node),
            _ => None,
        }
    }
}

} // verus!
