use recoded::nodes::canvas::CanvasNode;
use recoded::nodes::circle::CircleNode;
use recoded::nodes::constant_value::{ConstantValue, ConstantValueNode, TAU_BITS};
use recoded::nodes::point::PointNode;
use recoded::nodes::point_polar::PointPolarNode;
use recoded::nodes::range::RangeNode;
use recoded::nodes::sink::SinkNode;
use recoded::nodes::{pairs_of, stretch_at, EmitterNode, NodeDowncast, NodeInfo, Nodes, NumberEmitterNode};
use recoded::number::Number;
use recoded::pins::{InputPinId, OutputPinId};
use recoded::shapes::{Circle, Point, Shapes};
use recoded::values::{copy_values, Values};

fn num(v: f64) -> Number {
    Number::from_bits(v.to_bits())
}

fn nums(v: &[f64]) -> Vec<Number> {
    v.iter().map(|x| num(*x)).collect()
}

fn floats(values: &Values) -> Vec<f64> {
    match values {
        Values::Float(v) => v.iter().map(|n| f64::from_bits(n.to_bits())).collect(),
        _ => panic!("no numbers"),
    }
}

fn all_kinds() -> Vec<Nodes> {
    vec![
        Nodes::ConstantValueNode(ConstantValueNode::default()),
        Nodes::Sink(SinkNode),
        Nodes::Range(RangeNode::default()),
        Nodes::Point(PointNode::default()),
        Nodes::PointPolar(PointPolarNode::default()),
        Nodes::Circle(CircleNode::default()),
        Nodes::Canvas(CanvasNode::default()),
    ]
}

#[test]
fn every_kind_has_its_pins_and_title() {
    let expected = [
        (0, 1, "Constant"),
        (1, 0, "Sink"),
        (3, 1, "Range"),
        (2, 1, "Point"),
        (3, 1, "PointPolat"),
        (2, 1, "Circle"),
        (3, 1, "Canvas"),
    ];
    for (node, (inputs, outputs, title)) in all_kinds().iter().zip(expected.iter()) {
        assert_eq!(*inputs, node.inputs());
        assert_eq!(*outputs, node.outputs());
        assert_eq!(*title, node.title());
        let ids = node.out_ids();
        assert_eq!(*outputs, ids.len());
        for (i, id) in ids.iter().enumerate() {
            assert_eq!(OutputPinId(i), *id);
        }
    }
    assert_eq!(3, RangeNode::inputs());
    assert_eq!(1, RangeNode::outputs());
    assert_eq!("Range", RangeNode::title());
    assert_eq!(0, ConstantValueNode::inputs());
    assert_eq!(0, SinkNode::outputs());
    assert_eq!("Sink", SinkNode::title());
    assert_eq!(2, PointNode::inputs());
    assert_eq!(3, PointPolarNode::inputs());
    assert_eq!(2, CircleNode::inputs());
    assert_eq!(3, CanvasNode::inputs());
    assert_eq!("Canvas", CanvasNode::title());
}

#[test]
fn downcasting_gives_the_node_of_its_kind_only() {
    let mut node = Nodes::Range(RangeNode::default());
    assert!(RangeNode::try_downcast(&node).is_some());
    assert!(PointNode::try_downcast(&node).is_none());
    assert!(CircleNode::try_downcast(&node).is_none());
    assert!(CanvasNode::try_downcast(&node).is_none());
    assert!(SinkNode::try_downcast(&node).is_none());
    assert!(ConstantValueNode::try_downcast(&node).is_none());
    assert!(PointPolarNode::try_downcast_mut(&mut node).is_none());
    RangeNode::try_downcast_mut(&mut node).unwrap().set_count(4);
    assert_eq!(4, RangeNode::try_downcast(&node).unwrap().count());
    let mut node = Nodes::Point(PointNode::default());
    assert!(RangeNode::try_downcast_mut(&mut node).is_none());
    PointNode::try_downcast_mut(&mut node).unwrap().set_x(num(2.0));
    node.solve();
    assert_eq!(Some(Point::new(num(2.0), num(0.0))), node.try_get_point());
}

#[test]
fn a_point_node_pairs_its_inputs_up_to_the_shorter_and_stretches_a_companion() {
    let mut node = Nodes::Point(PointNode::default());
    node.push_inputs(InputPinId(0), &Values::Float(nums(&[1.0, 2.0, 3.0])));
    node.push_inputs(InputPinId(1), &Values::Float(nums(&[10.0, 20.0])));
    assert_eq!(Some(Vec::new()), node.try_get_points());
    node.solve();
    // two lists of more than one value are paired up to the shorter
    assert_eq!(
        Some(vec![
            Point::new(num(1.0), num(10.0)),
            Point::new(num(2.0), num(20.0)),
        ]),
        node.try_get_points()
    );
    assert_eq!(Some(Point::new(num(1.0), num(10.0))), node.try_get_point());
    // a list of one value goes along with every value of the other
    node.push_inputs(InputPinId(1), &Values::Float(nums(&[7.0])));
    node.solve();
    assert_eq!(
        Some(vec![
            Point::new(num(1.0), num(7.0)),
            Point::new(num(2.0), num(7.0)),
            Point::new(num(3.0), num(7.0)),
        ]),
        node.try_get_points()
    );
    node.push_inputs(InputPinId(0), &Values::Float(nums(&[4.0])));
    node.solve();
    assert_eq!(Some(vec![Point::new(num(4.0), num(7.0))]), node.try_get_points());
    node.push_inputs(InputPinId(0), &Values::Float(nums(&[1.0, 2.0, 3.0])));
    // an empty list counts as zeros
    node.push_inputs(InputPinId(1), &Values::Float(Vec::new()));
    node.solve();
    assert_eq!(
        Some(vec![
            Point::new(num(1.0), num(0.0)),
            Point::new(num(2.0), num(0.0)),
            Point::new(num(3.0), num(0.0)),
        ]),
        node.try_get_points()
    );
    node.push_inputs(InputPinId(0), &Values::Float(Vec::new()));
    node.solve();
    assert_eq!(Some(Vec::new()), node.try_get_points());
    assert_eq!(Some(Point::default()), node.try_get_point());
}

#[test]
fn a_pin_of_numbers_takes_integers_as_doubles() {
    let mut node = Nodes::Point(PointNode::default());
    node.push_inputs(InputPinId(0), &Values::Int(vec![3, 4]));
    node.push_inputs(InputPinId(1), &Values::Int(vec![5]));
    node.solve();
    assert_eq!(
        Some(vec![
            Point::new(num(3.0), num(5.0)),
            Point::new(num(4.0), num(5.0)),
        ]),
        node.try_get_points()
    );
}

#[test]
fn what_a_pin_does_not_take_is_dropped() {
    let mut node = Nodes::Point(PointNode::default());
    node.push_inputs(InputPinId(0), &Values::Float(nums(&[1.0])));
    node.push_inputs(InputPinId(0), &Values::Bool(vec![true, false]));
    node.push_inputs(InputPinId(0), &Values::String(vec!["x".to_string()]));
    node.push_inputs(InputPinId(0), &Values::Point(vec![Point::default()]));
    node.push_inputs(InputPinId(0), &Values::Custom(vec![vec![1, 2]]));
    node.push_inputs(InputPinId(2), &Values::Float(nums(&[9.0])));
    node.push_inputs(InputPinId(usize::MAX), &Values::Float(nums(&[9.0])));
    node.solve();
    assert_eq!(Some(vec![Point::new(num(1.0), num(0.0))]), node.try_get_points());

    let mut circle = Nodes::Circle(CircleNode::default());
    circle.push_inputs(InputPinId(0), &Values::Float(nums(&[1.0])));
    circle.push_inputs(InputPinId(1), &Values::Point(vec![Point::default()]));
    circle.solve();
    assert_eq!(Some(Vec::new()), circle.try_get_shapes());

    let mut sink = Nodes::Sink(SinkNode);
    sink.push_inputs(InputPinId(0), &Values::Float(nums(&[1.0])));
    sink.solve();
    assert_eq!(0, sink.values_out(OutputPinId(0)).len());

    let mut constant = Nodes::ConstantValueNode(ConstantValueNode::default());
    constant.push_inputs(InputPinId(0), &Values::Float(nums(&[1.0])));
    constant.solve();
    assert_eq!(vec![std::f64::consts::PI], floats(&constant.values_out(OutputPinId(0))));
}

#[test]
fn a_circle_node_pairs_centers_and_radii() {
    let mut node = Nodes::Circle(CircleNode::default());
    let centers = vec![Point::new(num(1.0), num(2.0)), Point::new(num(3.0), num(4.0))];
    node.push_inputs(InputPinId(0), &Values::Point(copy_values(&centers)));
    node.push_inputs(InputPinId(1), &Values::Int(vec![7]));
    node.solve();
    let expected = vec![
        Shapes::Circle(Circle::new(centers[0], num(7.0))),
        Shapes::Circle(Circle::new(centers[1], num(7.0))),
    ];
    assert_eq!(Some(copy_values(&expected)), node.try_get_shapes());
    assert_eq!(Some(expected[0]), node.try_get_shape());
    match node.values_out(OutputPinId(0)) {
        Values::Circle(circles) => {
            assert_eq!(vec![Circle::new(centers[0], num(7.0)), Circle::new(centers[1], num(7.0))], circles)
        }
        _ => panic!("no circles"),
    }
    let circle = CircleNode::try_downcast(&node).unwrap();
    assert_eq!(Circle::new(centers[0], num(7.0)), circle.circle_out());
    assert_eq!(expected[0], EmitterNode::value_out(circle));
    assert_eq!(expected, EmitterNode::values_out(circle));
    assert_eq!(&Circle::new(centers[0], num(7.0)), expected[0].get_shape());

    // two lists of more than one value are paired up to the shorter
    let mut node = Nodes::Circle(CircleNode::default());
    node.push_inputs(
        InputPinId(0),
        &Values::Point(vec![centers[0], centers[1], centers[0]]),
    );
    node.push_inputs(InputPinId(1), &Values::Float(nums(&[1.0, 2.0])));
    node.solve();
    assert_eq!(
        Some(vec![
            Shapes::Circle(Circle::new(centers[0], num(1.0))),
            Shapes::Circle(Circle::new(centers[1], num(2.0))),
        ]),
        node.try_get_shapes()
    );

    // radii without centers are circles at the origin
    let mut node = Nodes::Circle(CircleNode::default());
    node.push_inputs(InputPinId(1), &Values::Float(nums(&[1.5, 2.5])));
    node.solve();
    assert_eq!(
        Some(vec![
            Shapes::Circle(Circle::new(Point::default(), num(1.5))),
            Shapes::Circle(Circle::new(Point::default(), num(2.5))),
        ]),
        node.try_get_shapes()
    );
    assert_eq!(None, Nodes::Sink(SinkNode).try_get_shape());
    assert_eq!(None, Nodes::Sink(SinkNode).try_get_shapes());
    assert_eq!(
        Some(Shapes::default()),
        Nodes::Circle(CircleNode::default()).try_get_shape()
    );
}

#[test]
fn a_canvas_takes_one_extent_and_all_shapes() {
    let mut node = CanvasNode::default();
    assert_eq!(400.0, f64::from_bits(node.width().to_bits()));
    assert_eq!(300.0, f64::from_bits(node.height().to_bits()));
    node.values_in(InputPinId(0), &Values::Float(nums(&[640.0, 1.0, 2.0])));
    node.values_in(InputPinId(1), &Values::Int(vec![480, 3]));
    assert_eq!(640.0, f64::from_bits(node.width().to_bits()));
    assert_eq!(480.0, f64::from_bits(node.height().to_bits()));
    // an empty list writes the default
    node.values_in(InputPinId(0), &Values::Float(Vec::new()));
    node.values_in(InputPinId(1), &Values::Int(Vec::new()));
    assert_eq!(400.0, f64::from_bits(node.width().to_bits()));
    assert_eq!(300.0, f64::from_bits(node.height().to_bits()));
    node.values_in(InputPinId(0), &Values::Bool(vec![true]));
    assert_eq!(400.0, f64::from_bits(node.width().to_bits()));

    let circle = Circle::new(Point::new(num(1.0), num(1.0)), num(2.0));
    node.values_in(InputPinId(2), &Values::Circle(vec![circle, circle]));
    assert_eq!(vec![Shapes::Circle(circle), Shapes::Circle(circle)], node.shapes());
    node.values_in(InputPinId(2), &Values::Shape(vec![Shapes::Circle(circle)]));
    assert_eq!(vec![Shapes::Circle(circle)], node.shapes());
    node.values_in(InputPinId(2), &Values::Float(nums(&[1.0])));
    assert_eq!(vec![Shapes::Circle(circle)], node.shapes());
    node.set_width(num(10.0));
    node.set_height(num(20.0));
    assert_eq!(num(10.0), node.width());
    assert_eq!(num(20.0), node.height());
}

#[test]
fn a_canvas_marks_its_image_as_due_and_offers_what_was_drawn() {
    let mut node = Nodes::Canvas(CanvasNode::default());
    assert!(!CanvasNode::try_downcast(&node).unwrap().image_changed());
    node.solve();
    assert!(CanvasNode::try_downcast(&node).unwrap().image_changed());
    CanvasNode::try_downcast_mut(&mut node)
        .unwrap()
        .set_image(vec![60, 115, 118, 103, 62]);
    let canvas = CanvasNode::try_downcast(&node).unwrap();
    assert!(!canvas.image_changed());
    assert_eq!(vec![60, 115, 118, 103, 62], canvas.image());
    match node.values_out(OutputPinId(0)) {
        Values::Custom(payloads) => assert_eq!(vec![vec![60, 115, 118, 103, 62]], payloads),
        _ => panic!("no payload"),
    }
}

#[test]
fn a_range_keeps_its_sequence_and_takes_its_parameters() {
    let mut node = Nodes::Range(RangeNode::default());
    node.push_inputs(InputPinId(0), &Values::Float(nums(&[1.5])));
    node.push_inputs(InputPinId(1), &Values::Int(vec![2]));
    node.push_inputs(InputPinId(2), &Values::Int(vec![3]));
    // the count takes integers only
    node.push_inputs(InputPinId(2), &Values::Float(nums(&[9.0])));
    {
        let range = RangeNode::try_downcast(&node).unwrap();
        assert_eq!(num(1.5), range.start());
        assert_eq!(num(2.0), range.step());
        assert_eq!(3, range.count());
    }
    assert_eq!(Some(Vec::new()), node.try_get_floats());
    assert_eq!(Some(num(0.0)), node.try_get_float());
    RangeNode::try_downcast_mut(&mut node)
        .unwrap()
        .set_numbers(nums(&[1.5, 3.5, 5.5]));
    node.solve();
    assert_eq!(Some(nums(&[1.5, 3.5, 5.5])), node.try_get_floats());
    assert_eq!(Some(num(1.5)), node.try_get_float());
    assert_eq!(vec![1.5, 3.5, 5.5], floats(&node.values_out(OutputPinId(0))));
    let range = RangeNode::try_downcast(&node).unwrap();
    assert_eq!(nums(&[1.5, 3.5, 5.5]), range.get_numbers());
    assert_eq!(num(1.5), range.try_get_number());
    assert_eq!(nums(&[1.5, 3.5, 5.5]), range.try_get_numbers());
    assert_eq!(None, Nodes::Point(PointNode::default()).try_get_floats());
    assert_eq!(None, Nodes::Point(PointNode::default()).try_get_float());
}

#[test]
fn a_polar_point_node_keeps_its_points_and_takes_its_parameters() {
    let mut node = Nodes::PointPolar(PointPolarNode::default());
    let centers = vec![Point::new(num(1.0), num(2.0))];
    node.push_inputs(InputPinId(0), &Values::Point(copy_values(&centers)));
    node.push_inputs(InputPinId(0), &Values::Float(nums(&[5.0])));
    node.push_inputs(InputPinId(1), &Values::Int(vec![2, 3]));
    node.push_inputs(InputPinId(2), &Values::Float(nums(&[0.5])));
    node.push_inputs(InputPinId(2), &Values::Point(Vec::new()));
    {
        let polar = PointPolarNode::try_downcast(&node).unwrap();
        assert_eq!(centers, polar.centers());
        assert_eq!(nums(&[2.0, 3.0]), polar.radii());
        assert_eq!(nums(&[0.5]), polar.angles());
    }
    assert_eq!(Some(Vec::new()), node.try_get_points());
    let polar = PointPolarNode::try_downcast_mut(&mut node).unwrap();
    polar.set_points(vec![Point::new(num(3.0), num(2.0))]);
    polar.set_radius(num(4.0));
    polar.set_angle(num(1.0));
    assert_eq!(nums(&[4.0, 3.0]), polar.radii());
    assert_eq!(nums(&[1.0]), polar.angles());
    node.solve();
    assert_eq!(Some(vec![Point::new(num(3.0), num(2.0))]), node.try_get_points());
    assert_eq!(Some(Point::new(num(3.0), num(2.0))), node.try_get_point());
    let polar = PointPolarNode::try_downcast(&node).unwrap();
    assert_eq!(Point::new(num(3.0), num(2.0)), EmitterNode::value_out(polar));
    assert_eq!(vec![Point::new(num(3.0), num(2.0))], EmitterNode::values_out(polar));
    assert_eq!(None, Nodes::Sink(SinkNode).try_get_point());
    assert_eq!(None, Nodes::Sink(SinkNode).try_get_points());
}

#[test]
fn a_constant_offers_one_number() {
    let mut constant = ConstantValueNode::default();
    constant.select(ConstantValue::Tau);
    let node = Nodes::ConstantValueNode(constant);
    assert_eq!(Some(Number::from_bits(TAU_BITS)), node.try_get_float());
    assert_eq!(Some(vec![Number::from_bits(TAU_BITS)]), node.try_get_floats());
    assert_eq!(vec![std::f64::consts::TAU], floats(&node.values_out(OutputPinId(0))));
    let constant = ConstantValueNode::try_downcast(&node).unwrap();
    assert_eq!(Number::from_bits(TAU_BITS), constant.try_get_number());
    assert_eq!(vec![Number::from_bits(TAU_BITS)], constant.try_get_numbers());
}

#[test]
fn an_output_that_a_node_does_not_have_offers_an_empty_payload() {
    for node in all_kinds() {
        match node.values_out(OutputPinId(1)) {
            Values::Custom(payloads) => assert!(payloads.is_empty()),
            _ => panic!("expected an empty payload"),
        }
    }
}

#[test]
fn piping_delivers_what_one_node_offers_to_another() {
    let mut range = RangeNode::default();
    range.set_numbers(nums(&[1.0, 2.0]));
    let source = Nodes::Range(range);
    let mut point = Nodes::Point(PointNode::default());
    source.pipe_into(OutputPinId(0), &mut point, InputPinId(1));
    point.solve();
    assert_eq!(
        Some(vec![
            Point::new(num(0.0), num(1.0)),
            Point::new(num(0.0), num(2.0)),
        ]),
        point.try_get_points()
    );
    let mut circle = Nodes::Circle(CircleNode::default());
    point.pipe_into(OutputPinId(0), &mut circle, InputPinId(0));
    point.pipe_into(OutputPinId(0), &mut circle, InputPinId(1));
    point.pipe_into(OutputPinId(4), &mut circle, InputPinId(0));
    circle.solve();
    assert_eq!(2, circle.try_get_shapes().unwrap().len());
}

#[test]
fn values_know_their_length_and_their_numbers_and_shapes() {
    assert_eq!(2, Values::Int(vec![1, 2]).len());
    assert_eq!(1, Values::Float(nums(&[1.0])).len());
    assert_eq!(3, Values::String(vec![String::new(), String::new(), String::new()]).len());
    assert_eq!(1, Values::Bool(vec![true]).len());
    assert_eq!(0, Values::Point(Vec::new()).len());
    assert_eq!(1, Values::Circle(vec![Circle::default()]).len());
    assert_eq!(1, Values::Shape(vec![Shapes::default()]).len());
    assert_eq!(2, Values::Custom(vec![vec![], vec![1]]).len());
    assert_eq!(Some(nums(&[1.0, 2.0])), Values::Int(vec![1, 2]).numbers());
    assert_eq!(Some(nums(&[0.5])), Values::Float(nums(&[0.5])).numbers());
    assert_eq!(None, Values::Bool(vec![true]).numbers());
    assert_eq!(None, Values::Shape(Vec::new()).numbers());
    assert_eq!(
        Some(vec![Shapes::Circle(Circle::default())]),
        Values::Circle(vec![Circle::default()]).shapes()
    );
    assert_eq!(Some(vec![Shapes::default()]), Values::Shape(vec![Shapes::default()]).shapes());
    assert_eq!(None, Values::Int(vec![1]).shapes());
    assert_eq!(0, pairs_of(0, 0));
    assert_eq!(1, pairs_of(1, 0));
    assert_eq!(1, pairs_of(1, 1));
    assert_eq!(5, pairs_of(0, 5));
    assert_eq!(5, pairs_of(5, 1));
    assert_eq!(2, pairs_of(2, 5));
    assert_eq!(3, pairs_of(4, 3));
    assert_eq!(7, stretch_at(&vec![5, 6, 7], 9, 0));
    assert_eq!(6, stretch_at(&vec![5, 6, 7], 1, 0));
    assert_eq!(4, stretch_at(&Vec::new(), 0, 4));
}

#[test]
fn a_pin_is_dirty_from_a_delivery_until_the_node_recomputes() {
    let mut node = Nodes::Circle(CircleNode::default());
    assert!(!node.is_dirty(InputPinId(0)));
    assert!(!node.is_dirty(InputPinId(1)));
    node.push_inputs(InputPinId(1), &Values::Int(vec![2]));
    assert!(!node.is_dirty(InputPinId(0)));
    assert!(node.is_dirty(InputPinId(1)));
    // what a pin does not take does not mark it
    node.push_inputs(InputPinId(0), &Values::Bool(vec![true]));
    assert!(!node.is_dirty(InputPinId(0)));
    node.solve();
    assert!(!node.is_dirty(InputPinId(1)));
    assert!(!node.is_dirty(InputPinId(7)));
    for mut node in all_kinds() {
        for pin in 0..node.inputs() {
            node.push_inputs(InputPinId(pin), &Values::Float(nums(&[1.0])));
            node.push_inputs(InputPinId(pin), &Values::Point(vec![Point::default()]));
            node.push_inputs(InputPinId(pin), &Values::Int(vec![1]));
            node.push_inputs(InputPinId(pin), &Values::Shape(vec![Shapes::default()]));
        }
        node.solve();
        for pin in 0..node.inputs() {
            assert!(!node.is_dirty(InputPinId(pin)));
        }
    }
}

#[test]
fn recalc_of_a_range_stores_what_the_program_computed_and_consumes_the_inputs() {
    let mut range = RangeNode::default();
    range.set_start(num(1.0));
    range.set_step(num(0.5));
    range.set_count(3);
    assert!(range.is_dirty(InputPinId(0)));
    assert!(range.is_dirty(InputPinId(1)));
    assert!(range.is_dirty(InputPinId(2)));
    let numbers: Vec<Number> = (0..range.count())
        .map(|i| {
            num(f64::from_bits(range.start().to_bits())
                + f64::from_bits(range.step().to_bits()) * i as f64)
        })
        .collect();
    range.recalc(numbers);
    assert_eq!(nums(&[1.0, 1.5, 2.0]), range.get_numbers());
    assert!(!range.is_dirty(InputPinId(0)));
    assert!(!range.is_dirty(InputPinId(1)));
    assert!(!range.is_dirty(InputPinId(2)));
    assert_eq!(num(1.0), range.start());
    assert_eq!(3, range.count());
    // a turn in a solve keeps the sequence
    let mut node = Nodes::Range(range);
    node.push_inputs(InputPinId(2), &Values::Int(vec![5]));
    node.solve();
    assert_eq!(Some(nums(&[1.0, 1.5, 2.0])), node.try_get_floats());
    assert!(!node.is_dirty(InputPinId(2)));
}

#[test]
fn recalc_of_a_polar_point_and_of_a_canvas_store_what_the_program_computed() {
    let mut polar = PointPolarNode::default();
    polar.set_radius(num(2.0));
    polar.set_angle(num(0.0));
    polar.recalc(vec![Point::new(num(2.0), num(0.0))]);
    assert_eq!(vec![Point::new(num(2.0), num(0.0))], polar.points_out());
    assert!(!polar.is_dirty(InputPinId(1)));
    assert!(!polar.is_dirty(InputPinId(2)));
    assert_eq!(nums(&[2.0]), polar.radii());

    let mut canvas = CanvasNode::default();
    canvas.set_width(num(10.0));
    assert!(canvas.is_dirty(InputPinId(0)));
    canvas.recalc(vec![1, 2, 3]);
    assert_eq!(vec![1, 2, 3], canvas.image());
    assert!(canvas.image_changed());
    assert!(!canvas.is_dirty(InputPinId(0)));
    assert_eq!(num(10.0), canvas.width());
    canvas.set_image(vec![4]);
    assert!(!canvas.image_changed());
    canvas.mark_due();
    assert!(canvas.image_changed());
    assert_eq!(vec![4], canvas.image());
}
