use egui_snarl::{InPinId, OutPinId, Snarl};
use recoded::nodes::canvas::CanvasNode;
use recoded::nodes::circle::CircleNode;
use recoded::nodes::constant_value::{ConstantValue, ConstantValueNode, PI_BITS};
use recoded::nodes::point::PointNode;
use recoded::nodes::range::RangeNode;
use recoded::nodes::sink::SinkNode;
use recoded::nodes::{NodeDowncast, Nodes};
use recoded::number::Number;
use recoded::shapes::{Circle, Point, Shapes};
use recoded::solver::marker::Marker;
use recoded::solver::{solve_starting_from, NodeId, SolveError};

fn num(v: f64) -> Number {
    Number::from_bits(v.to_bits())
}

fn val(n: Number) -> f64 {
    f64::from_bits(n.to_bits())
}

/// The arithmetic sequence of a range node, as the embedding program
/// computes it.
fn range_numbers(node: &RangeNode) -> Vec<Number> {
    let start = val(node.start());
    let step = val(node.step());
    (0..node.count()).map(|i| num(start + step * i as f64)).collect()
}

fn insert(snarl: &mut Snarl<Nodes>, node: Nodes) -> egui_snarl::NodeId {
    snarl.insert_node(egui::Pos2::ZERO, node)
}

fn wire(snarl: &mut Snarl<Nodes>, from: egui_snarl::NodeId, output: usize, to: egui_snarl::NodeId, input: usize) {
    assert!(snarl.connect(OutPinId { node: from, output }, InPinId { node: to, input }));
}

fn id(node: egui_snarl::NodeId) -> NodeId {
    NodeId(node.0)
}

fn range_with(start: f64, step: f64, count: usize) -> Nodes {
    let mut range = RangeNode::default();
    range.set_start(num(start));
    range.set_step(num(step));
    range.set_count(count);
    let numbers = range_numbers(&range);
    range.set_numbers(numbers);
    Nodes::Range(range)
}

fn points_of(snarl: &Snarl<Nodes>, node: egui_snarl::NodeId) -> Vec<(f64, f64)> {
    snarl
        .get_node(node)
        .unwrap()
        .try_get_points()
        .unwrap()
        .iter()
        .map(|p| (val(p.x), val(p.y)))
        .collect()
}

fn position(order: &[NodeId], node: egui_snarl::NodeId) -> usize {
    order.iter().position(|n| *n == id(node)).unwrap()
}

#[test]
fn test_api() {
    let mut snarl: Snarl<Nodes> = Snarl::new();
    assert_eq!(
        Err(SolveError::UnknownNode),
        solve_starting_from(NodeId(0), &mut snarl)
    );
}

#[test]
fn marker_should_mark_ranks() {
    let mut snarl: Snarl<Nodes> = Snarl::new();
    let node = Nodes::Range(RangeNode::default());
    let range_id = snarl.insert_node(egui::Pos2::ZERO, node);
    let node = Nodes::Point(PointNode::default());
    let point_id = snarl.insert_node(egui::Pos2::ZERO, node);
    let range_out_pin = OutPinId {
        node: range_id,
        output: 0,
    };
    let point_in_pin = InPinId {
        node: point_id,
        input: 0,
    };
    assert!(snarl.connect(range_out_pin, point_in_pin));

    let range_id: NodeId = NodeId(range_id.0);
    let point_id: NodeId = NodeId(point_id.0);
    let marker = Marker::new();
    let ranks = marker.mark_nodes_from(&snarl, range_id).unwrap();

    assert_eq!(range_id, ranks[&0][0]);
    assert_eq!(point_id, ranks[&1][0]);
    assert_eq!(1, ranks[&0].len());
    assert_eq!(1, ranks[&1].len());
    assert_eq!(2, ranks.len());
}

#[test]
fn solver_should_solve_simple_setup() {
    let mut snarl: Snarl<Nodes> = Snarl::new();
    let node = Nodes::Range(RangeNode::default());
    let range_id = snarl.insert_node(egui::Pos2::ZERO, node);
    let node = Nodes::Point(PointNode::default());
    let point_id = snarl.insert_node(egui::Pos2::ZERO, node);
    let range_out_pin = OutPinId {
        node: range_id,
        output: 0,
    };
    let point_in_pin = InPinId {
        node: point_id,
        input: 0,
    };
    assert!(snarl.connect(range_out_pin, point_in_pin));

    {
        let range = RangeNode::try_downcast_mut(snarl.get_node_mut(range_id).unwrap()).unwrap();
        range.set_count(10);
        let numbers = range_numbers(range);
        range.set_numbers(numbers);
    }

    assert_eq!(
        0,
        snarl
            .get_node(point_id)
            .unwrap()
            .try_get_points()
            .unwrap()
            .len()
    );

    solve_starting_from(NodeId(range_id.0), &mut snarl).unwrap();
    assert_eq!(
        10,
        snarl
            .get_node(point_id)
            .unwrap()
            .try_get_points()
            .unwrap()
            .len()
    );
}

#[test]
fn a_sequence_of_ten_numbers_gives_ten_points() {
    let mut snarl: Snarl<Nodes> = Snarl::new();
    let range_id = insert(&mut snarl, range_with(0.0, 1.0, 10));
    let mut point = PointNode::default();
    point.set_y(num(5.0));
    let point_id = insert(&mut snarl, Nodes::Point(point));
    wire(&mut snarl, range_id, 0, point_id, 0);

    let order = solve_starting_from(id(range_id), &mut snarl).unwrap();
    assert_eq!(vec![id(range_id), id(point_id)], order);

    let points = points_of(&snarl, point_id);
    assert_eq!(10, points.len());
    assert_eq!((0.0, 5.0), points[0]);
    assert_eq!((1.0, 5.0), points[1]);
    assert_eq!((9.0, 5.0), points[9]);
    for (i, p) in points.iter().enumerate() {
        assert_eq!((i as f64, 5.0), *p);
    }
    // the consumer has consumed its inputs; its output was written
    let node = snarl.get_node(point_id).unwrap();
    let point = PointNode::try_downcast(node).unwrap();
    assert_eq!(Point::new(num(0.0), num(5.0)), point.point_out());
}

#[test]
fn a_marked_node_takes_the_highest_rank_over_all_paths() {
    // a feeds d directly and through b
    let mut snarl: Snarl<Nodes> = Snarl::new();
    let a = insert(&mut snarl, range_with(1.0, 1.0, 3));
    let b = insert(&mut snarl, Nodes::Point(PointNode::default()));
    let d = insert(&mut snarl, Nodes::Circle(CircleNode::default()));
    wire(&mut snarl, a, 0, d, 1);
    wire(&mut snarl, a, 0, b, 0);
    wire(&mut snarl, b, 0, d, 0);

    let marker = Marker::mark(&snarl, id(a)).unwrap();
    assert_eq!(Some(0), marker.get_rank(id(a)));
    assert_eq!(Some(1), marker.get_rank(id(b)));
    assert_eq!(Some(2), marker.get_rank(id(d)));
    assert_eq!(vec![vec![id(a)], vec![id(b)], vec![id(d)]], marker.iter());
    assert_eq!(vec![id(a), id(b), id(d)], marker.order());
}

#[test]
fn diamond_is_ranked_two_and_recomputed_once_after_both() {
    let mut snarl: Snarl<Nodes> = Snarl::new();
    let a = insert(&mut snarl, range_with(2.0, 2.0, 4));
    let b = insert(&mut snarl, Nodes::Point(PointNode::default()));
    let c = insert(&mut snarl, Nodes::Point(PointNode::default()));
    let d = insert(&mut snarl, Nodes::Circle(CircleNode::default()));
    wire(&mut snarl, a, 0, b, 0);
    wire(&mut snarl, a, 0, c, 1);
    wire(&mut snarl, b, 0, d, 0);
    wire(&mut snarl, c, 0, d, 1);

    let ranks = Marker::new().mark_nodes_from(&snarl, id(a)).unwrap();
    assert_eq!(vec![id(a)], ranks[&0]);
    assert_eq!(2, ranks[&1].len());
    assert!(ranks[&1].contains(&id(b)));
    assert!(ranks[&1].contains(&id(c)));
    assert_eq!(vec![id(d)], ranks[&2]);
    assert_eq!(3, ranks.len());

    let order = solve_starting_from(id(a), &mut snarl).unwrap();
    assert_eq!(4, order.len());
    assert_eq!(1, order.iter().filter(|n| **n == id(d)).count());
    assert_eq!(0, position(&order, a));
    assert!(position(&order, b) < position(&order, d));
    assert!(position(&order, c) < position(&order, d));

    // b pairs the sequence with zeros, c zeros with the sequence
    assert_eq!(
        vec![(2.0, 0.0), (4.0, 0.0), (6.0, 0.0), (8.0, 0.0)],
        points_of(&snarl, b)
    );
    assert_eq!(
        vec![(0.0, 2.0), (0.0, 4.0), (0.0, 6.0), (0.0, 8.0)],
        points_of(&snarl, c)
    );
    // d got the points of b as centers; the points of c are not radii and
    // were dropped
    let circles = snarl.get_node(d).unwrap().try_get_shapes().unwrap();
    assert_eq!(4, circles.len());
    assert_eq!(
        Shapes::Circle(Circle::new(Point::new(num(2.0), num(0.0)), num(0.0))),
        circles[0]
    );
    assert_eq!(
        Shapes::Circle(Circle::new(Point::new(num(8.0), num(0.0)), num(0.0))),
        circles[3]
    );
}

#[test]
fn a_cycle_is_an_error_and_changes_nothing() {
    let mut snarl: Snarl<Nodes> = Snarl::new();
    let mut first = PointNode::default();
    first.set_x(num(1.0));
    first.set_y(num(2.0));
    let x = insert(&mut snarl, Nodes::Point(first));
    let mut second = CircleNode::default();
    second.set_radius(num(3.0));
    let y = insert(&mut snarl, Nodes::Circle(second));
    wire(&mut snarl, x, 0, y, 0);
    wire(&mut snarl, y, 0, x, 0);

    assert_eq!(Err(SolveError::Cycle), solve_starting_from(id(x), &mut snarl));
    assert_eq!(Err(SolveError::Cycle), solve_starting_from(id(y), &mut snarl));
    assert_eq!(
        Some(SolveError::Cycle),
        Marker::new().mark_nodes_from(&snarl, id(x)).err()
    );

    assert!(points_of(&snarl, x).is_empty());
    assert!(snarl.get_node(y).unwrap().try_get_shapes().unwrap().is_empty());
    let center = Nodes::Circle(CircleNode::default()).values_out(recoded::pins::OutputPinId(0));
    assert_eq!(0, center.len());
}

#[test]
fn a_node_that_feeds_itself_is_a_cycle() {
    let mut snarl: Snarl<Nodes> = Snarl::new();
    let x = insert(&mut snarl, Nodes::Point(PointNode::default()));
    wire(&mut snarl, x, 0, x, 1);
    assert_eq!(Err(SolveError::Cycle), solve_starting_from(id(x), &mut snarl));
}

#[test]
fn a_cycle_further_down_is_found() {
    let mut snarl: Snarl<Nodes> = Snarl::new();
    let a = insert(&mut snarl, range_with(0.0, 1.0, 2));
    let b = insert(&mut snarl, Nodes::Point(PointNode::default()));
    let c = insert(&mut snarl, Nodes::Circle(CircleNode::default()));
    let e = insert(&mut snarl, Nodes::Canvas(CanvasNode::default()));
    wire(&mut snarl, a, 0, b, 0);
    wire(&mut snarl, b, 0, c, 0);
    wire(&mut snarl, c, 0, e, 2);
    wire(&mut snarl, e, 0, b, 1);
    assert_eq!(Err(SolveError::Cycle), solve_starting_from(id(a), &mut snarl));
    // nothing was delivered
    assert!(points_of(&snarl, b).is_empty());
    // from a node behind the cycle there is none
    let f = insert(&mut snarl, Nodes::Sink(SinkNode));
    wire(&mut snarl, c, 0, f, 0);
    assert_eq!(Ok(vec![id(f)]), solve_starting_from(id(f), &mut snarl));
}

#[test]
fn a_cycle_that_the_changed_node_does_not_reach_is_no_error() {
    let mut snarl: Snarl<Nodes> = Snarl::new();
    let x = insert(&mut snarl, Nodes::Point(PointNode::default()));
    let y = insert(&mut snarl, Nodes::Point(PointNode::default()));
    wire(&mut snarl, x, 0, y, 0);
    wire(&mut snarl, y, 0, x, 0);
    let a = insert(&mut snarl, range_with(0.0, 1.0, 2));
    let b = insert(&mut snarl, Nodes::Point(PointNode::default()));
    wire(&mut snarl, a, 0, b, 0);
    let order = solve_starting_from(id(a), &mut snarl).unwrap();
    assert_eq!(vec![id(a), id(b)], order);
}

#[test]
fn an_unknown_node_is_an_error() {
    let mut snarl: Snarl<Nodes> = Snarl::new();
    let a = insert(&mut snarl, range_with(0.0, 1.0, 2));
    assert_eq!(
        Err(SolveError::UnknownNode),
        solve_starting_from(NodeId(a.0 + 7), &mut snarl)
    );
    assert_eq!(
        Some(SolveError::UnknownNode),
        Marker::mark(&snarl, NodeId(a.0 + 7)).err()
    );
    let removed = insert(&mut snarl, Nodes::Sink(SinkNode));
    snarl.remove_node(removed);
    assert_eq!(
        Err(SolveError::UnknownNode),
        solve_starting_from(id(removed), &mut snarl)
    );
}

#[test]
fn nodes_that_the_change_does_not_reach_are_untouched() {
    let mut snarl: Snarl<Nodes> = Snarl::new();
    let a = insert(&mut snarl, range_with(0.0, 1.0, 3));
    let b = insert(&mut snarl, Nodes::Point(PointNode::default()));
    wire(&mut snarl, a, 0, b, 0);
    // upstream of a, and beside it
    let mut constant = ConstantValueNode::default();
    constant.select(ConstantValue::Pi);
    let up = insert(&mut snarl, Nodes::ConstantValueNode(constant));
    wire(&mut snarl, up, 0, a, 0);
    let mut other = PointNode::default();
    other.set_x(num(4.0));
    other.set_y(num(5.0));
    let beside = insert(&mut snarl, Nodes::Point(other));
    let other_source = insert(&mut snarl, range_with(7.0, 0.0, 2));
    wire(&mut snarl, other_source, 0, beside, 1);

    solve_starting_from(id(a), &mut snarl).unwrap();

    assert_eq!(3, points_of(&snarl, b).len());
    // the pins of the node beside are as they were: dirty, and not recomputed
    let node = PointNode::try_downcast(snarl.get_node(beside).unwrap()).unwrap();
    assert!(node.points_out().is_empty());
    assert!(node.is_dirty(recoded::pins::InputPinId(0)));
    assert!(node.is_dirty(recoded::pins::InputPinId(1)));
    assert_eq!(num(4.0), node.x());
    assert_eq!(num(5.0), node.y());
    // the node that was reached has consumed what it received
    let reached = snarl.get_node(b).unwrap();
    assert!(!reached.is_dirty(recoded::pins::InputPinId(0)));
    assert!(!reached.is_dirty(recoded::pins::InputPinId(1)));
    assert!(!reached.is_dirty(recoded::pins::InputPinId(2)));
    let view = snarl.get_node(beside).unwrap();
    assert_eq!(2, view.inputs());
    let range = RangeNode::try_downcast(snarl.get_node(other_source).unwrap()).unwrap();
    assert_eq!(vec![num(7.0), num(7.0)], range.get_numbers());
    // the start of a was not overwritten by what feeds a: a was not fed
    let range = RangeNode::try_downcast(snarl.get_node(a).unwrap()).unwrap();
    assert_eq!(0.0, val(range.start()));
    assert_eq!(
        Some(num(f64::from_bits(PI_BITS))),
        snarl.get_node(up).unwrap().try_get_float()
    );
}

#[test]
fn solving_twice_changes_nothing_the_second_time() {
    let mut snarl: Snarl<Nodes> = Snarl::new();
    let a = insert(&mut snarl, range_with(1.0, 0.5, 6));
    let b = insert(&mut snarl, Nodes::Point(PointNode::default()));
    let c = insert(&mut snarl, Nodes::Circle(CircleNode::default()));
    let e = insert(&mut snarl, Nodes::Canvas(CanvasNode::default()));
    wire(&mut snarl, a, 0, b, 0);
    wire(&mut snarl, a, 0, b, 1);
    wire(&mut snarl, b, 0, c, 0);
    wire(&mut snarl, a, 0, c, 1);
    wire(&mut snarl, c, 0, e, 2);
    wire(&mut snarl, a, 0, e, 0);

    let first_order = solve_starting_from(id(a), &mut snarl).unwrap();
    let points = points_of(&snarl, b);
    let circles = snarl.get_node(c).unwrap().try_get_shapes().unwrap();
    let canvas = CanvasNode::try_downcast(snarl.get_node(e).unwrap()).unwrap();
    let shapes = canvas.shapes();
    let width = canvas.width();
    assert_eq!(6, points.len());
    assert_eq!((3.5, 3.5), points[5]);
    assert_eq!(6, circles.len());
    assert_eq!(circles, shapes);
    assert_eq!(1.0, val(width));
    assert!(canvas.image_changed());

    let second_order = solve_starting_from(id(a), &mut snarl).unwrap();
    assert_eq!(first_order, second_order);
    assert_eq!(points, points_of(&snarl, b));
    assert_eq!(circles, snarl.get_node(c).unwrap().try_get_shapes().unwrap());
    let canvas = CanvasNode::try_downcast(snarl.get_node(e).unwrap()).unwrap();
    assert_eq!(shapes, canvas.shapes());
    assert_eq!(width, canvas.width());
    assert!(canvas.image_changed());
}

#[test]
fn every_node_comes_after_the_nodes_that_feed_it() {
    // a chain whose nodes were inserted against the direction of the wires
    let mut snarl: Snarl<Nodes> = Snarl::new();
    let last = insert(&mut snarl, Nodes::Canvas(CanvasNode::default()));
    let third = insert(&mut snarl, Nodes::Circle(CircleNode::default()));
    let second = insert(&mut snarl, Nodes::Point(PointNode::default()));
    let first = insert(&mut snarl, range_with(0.0, 1.0, 2));
    wire(&mut snarl, first, 0, second, 0);
    wire(&mut snarl, second, 0, third, 0);
    wire(&mut snarl, third, 0, last, 2);
    wire(&mut snarl, first, 0, last, 1);
    let order = solve_starting_from(id(first), &mut snarl).unwrap();
    assert_eq!(vec![id(first), id(second), id(third), id(last)], order);
    let canvas = CanvasNode::try_downcast(snarl.get_node(last).unwrap()).unwrap();
    assert_eq!(2, canvas.shapes().len());
    assert_eq!(0.0, val(canvas.height()));

    let ranks = Marker::new().mark_nodes_from(&snarl, id(second)).unwrap();
    assert_eq!(vec![id(second)], ranks[&0]);
    assert_eq!(vec![id(third)], ranks[&1]);
    assert_eq!(vec![id(last)], ranks[&2]);
}

#[test]
fn a_wire_from_a_pin_that_a_node_does_not_have_carries_nothing() {
    let mut snarl: Snarl<Nodes> = Snarl::new();
    let a = insert(&mut snarl, range_with(0.0, 1.0, 2));
    let b = insert(&mut snarl, Nodes::Point(PointNode::default()));
    wire(&mut snarl, a, 3, b, 0);
    let order = solve_starting_from(id(a), &mut snarl).unwrap();
    assert_eq!(vec![id(a)], order);
    assert!(points_of(&snarl, b).is_empty());
}

#[test]
fn a_wire_to_a_pin_that_a_node_does_not_have_ranks_it_and_delivers_nothing() {
    let mut snarl: Snarl<Nodes> = Snarl::new();
    let a = insert(&mut snarl, range_with(0.0, 1.0, 2));
    let b = insert(&mut snarl, Nodes::Point(PointNode::default()));
    wire(&mut snarl, a, 0, b, 5);
    let order = solve_starting_from(id(a), &mut snarl).unwrap();
    assert_eq!(vec![id(a), id(b)], order);
    assert!(points_of(&snarl, b).is_empty());
}

#[test]
fn fan_out_reaches_every_connected_input() {
    let mut snarl: Snarl<Nodes> = Snarl::new();
    let a = insert(&mut snarl, range_with(1.0, 1.0, 2));
    let mut sinks = Vec::new();
    for _ in 0..5 {
        let p = insert(&mut snarl, Nodes::Point(PointNode::default()));
        wire(&mut snarl, a, 0, p, 0);
        wire(&mut snarl, a, 0, p, 1);
        sinks.push(p);
    }
    let order = solve_starting_from(id(a), &mut snarl).unwrap();
    assert_eq!(6, order.len());
    assert_eq!(id(a), order[0]);
    for p in sinks {
        assert_eq!(vec![(1.0, 1.0), (2.0, 2.0)], points_of(&snarl, p));
    }
}

#[test]
fn ranks_move_up_and_never_down() {
    let mut marker = Marker::new();
    assert_eq!(None, marker.get_rank(NodeId(4)));
    assert!(marker.store_node_rank(NodeId(4), 2));
    assert!(!marker.store_node_rank(NodeId(4), 1));
    assert!(!marker.store_node_rank(NodeId(4), 2));
    assert_eq!(Some(2), marker.get_rank(NodeId(4)));
    assert!(marker.store_node_rank(NodeId(5), 2));
    assert!(marker.store_node_rank(NodeId(4), 3));
    assert_eq!(
        vec![vec![], vec![], vec![NodeId(5)], vec![NodeId(4)]],
        marker.iter()
    );
    assert_eq!(vec![NodeId(5), NodeId(4)], marker.order());
}

#[test]
fn a_turn_recomputes_one_node_and_delivers_what_it_offers() {
    let mut snarl: Snarl<Nodes> = Snarl::new();
    let a = insert(&mut snarl, range_with(1.0, 1.0, 2));
    let b = insert(&mut snarl, Nodes::Point(PointNode::default()));
    let c = insert(&mut snarl, Nodes::Circle(CircleNode::default()));
    wire(&mut snarl, a, 0, b, 0);
    wire(&mut snarl, b, 0, c, 0);

    assert!(recoded::solver::solve_node(&mut snarl, id(a)));
    // b has received and not yet recomputed; c has received nothing
    let b_node = PointNode::try_downcast(snarl.get_node(b).unwrap()).unwrap();
    assert_eq!(num(1.0), b_node.x());
    assert!(b_node.points_out().is_empty());
    assert!(snarl.get_node(c).unwrap().try_get_shapes().unwrap().is_empty());

    assert!(recoded::solver::solve_node(&mut snarl, id(b)));
    assert_eq!(vec![(1.0, 0.0), (2.0, 0.0)], points_of(&snarl, b));
    assert!(snarl.get_node(c).unwrap().try_get_shapes().unwrap().is_empty());
    assert!(recoded::solver::solve_node(&mut snarl, id(c)));
    assert_eq!(2, snarl.get_node(c).unwrap().try_get_shapes().unwrap().len());

    assert!(!recoded::solver::solve_node(&mut snarl, NodeId(99)));
}

#[test]
fn a_turn_delivers_to_the_node_itself_where_it_is_wired_to_itself() {
    let mut snarl: Snarl<Nodes> = Snarl::new();
    let mut point = PointNode::default();
    point.set_x(num(1.0));
    let x = insert(&mut snarl, Nodes::Point(point));
    let y = insert(&mut snarl, Nodes::Circle(CircleNode::default()));
    wire(&mut snarl, x, 0, y, 0);
    wire(&mut snarl, x, 0, x, 1);
    assert!(recoded::solver::solve_node(&mut snarl, id(x)));
    assert_eq!(vec![(1.0, 0.0)], points_of(&snarl, x));
    let circle = CircleNode::try_downcast(snarl.get_node(y).unwrap()).unwrap();
    assert_eq!(num(0.0), circle.radius());
}

#[test]
fn turns_in_the_order_of_the_ranks_let_the_program_compute_in_between() {
    // a constant sets the step of a range, whose numbers become points
    let mut snarl: Snarl<Nodes> = Snarl::new();
    let mut constant = ConstantValueNode::default();
    constant.select(ConstantValue::Custom);
    constant.set_overwrite(num(0.5));
    let source = insert(&mut snarl, Nodes::ConstantValueNode(constant));
    let mut range = RangeNode::default();
    range.set_start(num(1.0));
    range.set_count(4);
    let middle = insert(&mut snarl, Nodes::Range(range));
    let sink = insert(&mut snarl, Nodes::Point(PointNode::default()));
    wire(&mut snarl, source, 0, middle, 1);
    wire(&mut snarl, middle, 0, sink, 0);

    let order = Marker::mark(&snarl, id(source)).unwrap().order();
    assert_eq!(vec![id(source), id(middle), id(sink)], order);
    for node in order {
        if let Some(range) =
            RangeNode::try_downcast_mut(snarl.get_node_mut(egui_snarl::NodeId(node.0)).unwrap())
        {
            let numbers = range_numbers(range);
            range.set_numbers(numbers);
        }
        assert!(recoded::solver::solve_node(&mut snarl, node));
    }
    assert_eq!(
        vec![(1.0, 0.0), (1.5, 0.0), (2.0, 0.0), (2.5, 0.0)],
        points_of(&snarl, sink)
    );
}

#[test]
fn downstream_of_lists_the_inputs_that_an_output_carries_values_to() {
    let mut snarl: Snarl<Nodes> = Snarl::new();
    let a = insert(&mut snarl, range_with(0.0, 1.0, 2));
    let b = insert(&mut snarl, Nodes::Point(PointNode::default()));
    let c = insert(&mut snarl, Nodes::Circle(CircleNode::default()));
    wire(&mut snarl, a, 0, b, 0);
    wire(&mut snarl, a, 0, b, 1);
    wire(&mut snarl, a, 0, c, 1);
    wire(&mut snarl, b, 0, c, 0);
    wire(&mut snarl, a, 1, c, 0);

    let mut found = recoded::solver::downstream_of(&snarl, id(a), recoded::pins::OutputPinId(0));
    found.sort_by_key(|(node, input)| (node.0, input.0));
    assert_eq!(
        vec![
            (id(b), recoded::pins::InputPinId(0)),
            (id(b), recoded::pins::InputPinId(1)),
            (id(c), recoded::pins::InputPinId(1)),
        ],
        found
    );
    assert_eq!(
        vec![(id(c), recoded::pins::InputPinId(0))],
        recoded::solver::downstream_of(&snarl, id(b), recoded::pins::OutputPinId(0))
    );
    // a range has one output pin: the wire from a second one carries nothing
    assert!(recoded::solver::downstream_of(&snarl, id(a), recoded::pins::OutputPinId(1)).is_empty());
    assert!(recoded::solver::downstream_of(&snarl, id(c), recoded::pins::OutputPinId(0)).is_empty());
    assert!(recoded::solver::downstream_of(&snarl, NodeId(77), recoded::pins::OutputPinId(0)).is_empty());
}

#[test]
fn a_long_chain_is_ranked_by_its_length() {
    // the nodes are inserted against the direction of the wires
    let mut snarl: Snarl<Nodes> = Snarl::new();
    let length = 120;
    let mut chain = Vec::new();
    for _ in 0..length {
        chain.push(insert(&mut snarl, Nodes::Point(PointNode::default())));
    }
    chain.reverse();
    for pair in chain.windows(2) {
        wire(&mut snarl, pair[0], 0, pair[1], 0);
    }
    let marker = Marker::mark(&snarl, id(chain[0])).unwrap();
    for (rank, node) in chain.iter().enumerate() {
        assert_eq!(Some(rank), marker.get_rank(id(*node)));
    }
    let order = solve_starting_from(id(chain[0]), &mut snarl).unwrap();
    assert_eq!(chain.iter().map(|n| id(*n)).collect::<Vec<_>>(), order);
    // closing the chain makes it a cycle
    wire(&mut snarl, chain[length - 1], 0, chain[0], 1);
    assert_eq!(
        Err(SolveError::Cycle),
        solve_starting_from(id(chain[length / 2]), &mut snarl)
    );
}
