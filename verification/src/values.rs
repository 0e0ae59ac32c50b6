use vstd::prelude::*;
use vstd::pervasive::cloned;
use vstd::std_specs::convert::FromSpec;
use crate::number::Number;
use crate::pins::{InputPin, IPin, OPin, OutputPin};
use crate::shapes::{Circle, Point, Shapes};

verus! {

/// What travels along a connection: any number of values of one kind.
///
/// Two pins that hold different types exchange values only in this form.
/// `Custom` carries payloads that the graph moves without reading them.
pub enum Values {
    Int(Vec<usize>),
    Float(Vec<Number>),
    String(Vec<String>),
    Bool(Vec<bool>),
    Point(Vec<Point>),
    Circle(Vec<Circle>),
    Shape(Vec<Shapes>),
    Custom(Vec<Vec<u8>>),
}

/// The mathematical content of a [`Values`].
pub ghost enum ValuesView {
    Int(Seq<usize>),
    Float(Seq<Number>),
    String(Seq<Seq<char>>),
    Bool(Seq<bool>),
    Point(Seq<Point>),
    Circle(Seq<Circle>),
    Shape(Seq<Shapes>),
    Custom(Seq<Seq<u8>>),
}

impl View for Values {
    type V = ValuesView;

    open spec fn view(&self) -> ValuesView {
        match self {
            Values::Int(v) => ValuesView::Int(v@),
            Values::Float(v) => ValuesView::Float(v@),
            Values::String(v) => ValuesView::String(Seq::new(v@.len(), |i: int| v@[i]@)),
            Values::Bool(v) => ValuesView::Bool(v@),
            Values::Point(v) => ValuesView::Point(v@),
            Values::Circle(v) => ValuesView::Circle(v@),
            Values::Shape(v) => ValuesView::Shape(v@),
            Values::Custom(v) => ValuesView::Custom(Seq::new(v@.len(), |i: int| v@[i]@)),
        }
    }
}

impl ValuesView {
    /// How many values are carried.
    pub open spec fn len(self) -> nat {
        match self {
            ValuesView::Int(s) => s.len(),
            ValuesView::Float(s) => s.len(),
            ValuesView::String(s) => s.len(),
            ValuesView::Bool(s) => s.len(),
            ValuesView::Point(s) => s.len(),
            ValuesView::Circle(s) => s.len(),
            ValuesView::Shape(s) => s.len(),
            ValuesView::Custom(s) => s.len(),
        }
    }
}

impl ValuesView {
    /// The numbers carried, integers converted to the nearest double; none
    /// where no numbers are carried.
    pub open spec fn numbers(self) -> Option<Seq<Number>> {
        match self {
            ValuesView::Float(s) => Some(s),
            ValuesView::Int(s) => Some(s.map_values(|i: usize| Number::of_int(i))),
            _ => None,
        }
    }

    /// The shapes carried, circles taken as shapes; none where no shapes are
    /// carried.
    pub open spec fn shapes(self) -> Option<Seq<Shapes>> {
        match self {
            ValuesView::Shape(s) => Some(s),
            ValuesView::Circle(s) => Some(s.map_values(|c: Circle| Shapes::Circle(c))),
            _ => None,
        }
    }
}

impl Values {
    /// The numbers carried, integers converted to the nearest double; none
    /// where no numbers are carried.
    pub fn numbers(&self) -> (r: Option<Vec<Number>>)
        ensures
            match r {
                Some(v) => self@.numbers() == Some(v@),
                None => self@.numbers() is None,
            },
    {
        match self {
            Values::Float(v) => Some(copy_values(v)),
            Values::Int(v) => {
                let mut r: Vec<Number> = Vec::new();
                let mut i: usize = 0;
                while i < v.len()
                    invariant
                        i <= v@.len(),
                        r@.len() == i,
                        forall|k: int| 0 <= k < i ==> r@[k] == Number::of_int(#[trigger] v@[k]),
                    decreases v@.len() - i,
                {
                    r.push(Number::from_int(v[i]));
                    i = i + 1;
                }
                proof {
                    assert(r@ =~= v@.map_values(|i: usize| Number::of_int(i)));
                }
                Some(r)
            },
            _ => None,
        }
    }

    /// The shapes carried, circles taken as shapes; none where no shapes are
    /// carried.
    pub fn shapes(&self) -> (r: Option<Vec<Shapes>>)
        ensures
            match r {
                Some(v) => self@.shapes() == Some(v@),
                None => self@.shapes() is None,
            },
    {
        match self {
            Values::Shape(v) => Some(copy_values(v)),
            Values::Circle(v) => {
                let mut r: Vec<Shapes> = Vec::new();
                let mut i: usize = 0;
                while i < v.len()
                    invariant
                        i <= v@.len(),
                        r@.len() == i,
                        forall|k: int| 0 <= k < i ==> r@[k] == Shapes::Circle(#[trigger] v@[k]),
                    decreases v@.len() - i,
                {
                    r.push(Shapes::Circle(v[i]));
                    i = i + 1;
                }
                proof {
                    assert(r@ =~= v@.map_values(|c: Circle| Shapes::Circle(c)));
                }
                Some(r)
            },
            _ => None,
        }
    }

    /// How many values are carried.
    pub fn len(&self) -> (r: usize)
        ensures
            r == self@.len(),
    {
        match self {
            Values::Int(v) => v.len(),
            Values::Float(v) => v.len(),
            Values::String(v) => v.len(),
            Values::Bool(v) => v.len(),
            Values::Point(v) => v.len(),
            Values::Circle(v) => v.len(),
            Values::Shape(v) => v.len(),
            Values::Custom(v) => v.len(),
        }
    }
}

/// A copy of `values`, element by element.
pub fn copy_values<T: Copy>(values: &Vec<T>) -> (r: Vec<T>)
    ensures
        r@ == values@,
{
    let mut r: Vec<T> = Vec::new();
    let mut i: usize = 0;
    while i < values.len()
        invariant
            i <= values@.len(),
            r@ == values@.take(i as int),
        decreases values@.len() - i,
    {
        r.push(values[i]);
        proof {
            assert(r@ =~= values@.take(i + 1));
        }
        i = i + 1;
    }
    assert(r@ =~= values@);
    r
}

/// Clones of what `producer` holds.
fn clone_values<P: Clone>(producer: &Vec<P>) -> (r: Vec<P>)
    ensures
        r@.len() == producer@.len(),
        forall|i: int| 0 <= i < r@.len() ==> cloned(#[trigger] producer@[i], r@[i]),
{
    let mut r: Vec<P> = Vec::new();
    let mut i: usize = 0;
    while i < producer.len()
        invariant
            i <= producer@.len(),
            r@.len() == i,
            forall|k: int| 0 <= k < i ==> cloned(#[trigger] producer@[k], r@[k]),
        decreases producer@.len() - i,
    {
        r.push(producer[i].clone());
        i = i + 1;
    }
    r
}

/// That `to` is the conversion of a clone of `from`.
pub open spec fn converted_clone<P: Clone, C: From<P>>(from: P, to: C) -> bool {
    exists|p: P| #[trigger] cloned(from, p) && to == C::from_spec(p)
}

/// Hands clones of everything that `producer` holds to `consumer`, each
/// converted into the consumer's type; the consumer then holds nothing else
/// and is dirty.
pub fn pipe_values_into<P, C>(producer: &OutputPin<P>, consumer: &mut InputPin<C>) where
    P: Clone,
    C: From<P> + PartialEq,

    ensures
        final(consumer)@.dirty,
        final(consumer)@.values.len() == producer@.values.len(),
        C::obeys_from_spec() ==> forall|i: int|
            0 <= i < producer@.values.len() ==> converted_clone(
                #[trigger] producer@.values[i],
                final(consumer)@.values[i],
            ),
{
    let copies = clone_values(producer.values_out());
    let ghost sent = copies@;
    consumer.values_in(copies);
    proof {
        if C::obeys_from_spec() {
            assert forall|i: int| 0 <= i < producer@.values.len() implies converted_clone(
                #[trigger] producer@.values[i],
                consumer@.values[i],
            ) by {
                assert(cloned(producer@.values[i], sent[i]));
            }
        }
    }
}

/// An output that can hand what it holds to an input of the same type.
pub trait ValuePipe<T> {
    /// How many values the output holds.
    spec fn count(&self) -> nat;

    /// Hands what the output holds to `pin`, which then holds as many
    /// values and is dirty.
    fn pipe_values_into(&self, pin: &mut InputPin<T>)
        ensures
            final(pin)@.dirty,
            final(pin)@.values.len() == self.count(),
    ;
}

impl<T: Clone> ValuePipe<T> for OutputPin<T> {
    open spec fn count(&self) -> nat {
        self@.values.len()
    }

    /// Hands clones of everything held to `pin`, which then holds nothing
    /// else and is dirty.
    fn pipe_values_into(&self, pin: &mut InputPin<T>)
        ensures
            forall|i: int|
                0 <= i < self@.values.len() ==> cloned(
                    #[trigger] self@.values[i],
                    final(pin)@.values[i],
                ),
    {
        let copies = clone_values(self.values_out());
        pin.set_values(copies);
    }
}

} // verus!
