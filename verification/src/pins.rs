use vstd::prelude::*;
use vstd::std_specs::cmp::PartialEqSpec;
use vstd::std_specs::convert::FromSpec;

verus! {

/// Position of an input pin on its node, counted from zero.
#[derive(Clone, Copy, Debug, Default, PartialEq, Eq, Hash)]
pub struct InputPinId(pub usize);

/// Position of an output pin on its node, counted from zero.
#[derive(Clone, Copy, Debug, Default, PartialEq, Eq, Hash)]
pub struct OutputPinId(pub usize);

/// What a pin holds: its values in order, and whether they changed since
/// they were last consumed.
pub ghost struct PinState<T> {
    pub values: Seq<T>,
    pub dirty: bool,
}

impl<T> PinState<T> {
    /// The state of a pin that never received a value.
    pub open spec fn empty() -> PinState<T> {
        PinState { values: Seq::empty(), dirty: false }
    }

    /// The state after `values` replaced what the pin held.
    pub open spec fn replaced(self, values: Seq<T>) -> PinState<T> {
        PinState { values, dirty: true }
    }

    /// The values after `value` was written over the first one.
    pub open spec fn with_first(self, value: T) -> Seq<T> {
        if self.values.len() == 0 {
            seq![value]
        } else {
            self.values.update(0, value)
        }
    }

    /// The state after `value` was written over the first one; `differs`
    /// says whether it differs from the value that it replaced.
    pub open spec fn written(self, value: T, differs: bool) -> PinState<T> {
        PinState {
            values: self.with_first(value),
            dirty: self.dirty || self.values.len() == 0 || differs,
        }
    }

    /// What holds of `after` whatever value was written over the first
    /// one: as many values as before, or one where there was none; all values
    /// but the first as they were; and dirty where the pin was empty or dirty.
    pub open spec fn first_written(self, after: PinState<T>) -> bool {
        &&& after.values.len() == (if self.values.len() == 0 {
            1
        } else {
            self.values.len()
        })
        &&& forall|i: int| 1 <= i < self.values.len() ==> after.values[i] == self.values[i]
        &&& self.dirty || self.values.len() == 0 ==> after.dirty
    }

    /// The same values, marked as consumed.
    pub open spec fn cleaned(self) -> PinState<T> {
        PinState { values: self.values, dirty: false }
    }
}

struct PinData<T> {
    data: Vec<T>,
    is_dirty: bool,
}

/// A slot through which a node receives values.
pub struct InputPin<T> {
    data: PinData<T>,
}

/// A slot on which a node offers the values that it computed.
pub struct OutputPin<T> {
    data: PinData<T>,
}

/// Writing into a pin, from any type that converts into what the pin holds.
pub trait IPin<T> {
    /// The type of the values that the pin holds.
    type Held;

    /// What the pin holds.
    spec fn held(&self) -> PinState<Self::Held>;

    /// That the conversion from `T` and the comparison of held values are
    /// specified, so that the contracts below say what is written.
    spec fn converts() -> bool;

    /// The held value that `value` converts into.
    spec fn converted(value: T) -> Self::Held;

    /// That two held values compare as different.
    spec fn differs(a: Self::Held, b: Self::Held) -> bool;

    /// Writes `value`, converted, over the first value held, or as the only
    /// one where the pin held nothing. The pin becomes dirty where it held
    /// nothing or held another first value; where it was dirty it stays so.
    /// The values after the first stay as they are.
    fn value_in(&mut self, value: T)
        ensures
            old(self).held().first_written(final(self).held()),
            Self::converts() ==> final(self).held() == old(self).held().written(
                Self::converted(value),
                old(self).held().values.len() > 0 && Self::differs(
                    Self::converted(value),
                    old(self).held().values[0],
                ),
            ),
    ;

    /// Replaces what the pin holds by `values`, each converted, and marks
    /// it dirty.
    fn values_in(&mut self, values: Vec<T>)
        ensures
            final(self).held().dirty,
            final(self).held().values.len() == values@.len(),
            Self::converts() ==> final(self).held() == old(self).held().replaced(
                values@.map_values(|v: T| Self::converted(v)),
            ),
    ;
}

/// Reading from a pin. Reading changes nothing.
pub trait OPin<T> {
    /// The values that the pin offers.
    spec fn offered(&self) -> Seq<T>;

    /// The first value, if there is any.
    fn value_out(&self) -> (r: Option<&T>)
        ensures
            match r {
                Some(v) => self.offered().len() > 0 && *v == self.offered()[0],
                None => self.offered().len() == 0,
            },
    ;

    /// All values, in order.
    fn values_out(&self) -> (r: &Vec<T>)
        ensures
            r@ == self.offered(),
    ;
}

impl<T> PinData<T> {
    /// What is held.
    spec fn state(&self) -> PinState<T> {
        PinState { values: self.data@, dirty: self.is_dirty }
    }

    /// Nothing held, and clean.
    fn new() -> (r: PinData<T>)
        ensures
            r.state() == PinState::<T>::empty(),
    {
        PinData { data: Vec::new(), is_dirty: false }
    }

    /// Replaces what is held by `values` and marks it dirty.
    fn put_all(&mut self, values: Vec<T>)
        ensures
            final(self).state() == old(self).state().replaced(values@),
    {
        self.data = values;
        self.is_dirty = true;
    }

    /// Writes `value` over the first value held, or as the only one where
    /// nothing was held; dirty where nothing was held or the value differs.
    fn put(&mut self, value: T) where T: PartialEq
        ensures
            T::obeys_eq_spec() ==> final(self).state() == old(self).state().written(
                value,
                old(self).state().values.len() > 0 && !value.eq_spec(&old(self).state().values[0]),
            ),
            final(self).state().values == old(self).state().with_first(value),
            old(self).state().first_written(final(self).state()),
    {
        if self.data.len() == 0 {
            self.data.push(value);
            self.is_dirty = true;
        } else {
            let same = value == self.data[0];
            if !same {
                self.is_dirty = true;
            }
            self.data[0] = value;
        }
        assert(self.data@ =~= old(self).state().with_first(value));
    }
}

/// Each of `values`, converted into `D`, in the same order.
fn convert_all<T, D: From<T>>(values: Vec<T>) -> (r: Vec<D>)
    ensures
        r@.len() == values@.len(),
        D::obeys_from_spec() ==> r@ == values@.map_values(|v: T| D::from_spec(v)),
{
    let ghost given = values@;
    let mut rest = values;
    let mut back: Vec<D> = Vec::new();
    while rest.len() > 0
        invariant
            rest@.len() + back@.len() == given.len(),
            rest@ == given.take(rest@.len() as int),
            D::obeys_from_spec() ==> forall|k: int|
                0 <= k < back@.len() ==> back@[k] == D::from_spec(
                    #[trigger] given[given.len() - 1 - k],
                ),
        decreases rest@.len(),
    {
        let v = rest.pop().unwrap();
        back.push(D::from(v));
    }
    let mut r: Vec<D> = Vec::new();
    while back.len() > 0
        invariant
            r@.len() + back@.len() == given.len(),
            D::obeys_from_spec() ==> forall|k: int|
                0 <= k < back@.len() ==> back@[k] == D::from_spec(
                    #[trigger] given[given.len() - 1 - k],
                ),
            D::obeys_from_spec() ==> forall|k: int|
                0 <= k < r@.len() ==> r@[k] == D::from_spec(#[trigger] given[k]),
        decreases back@.len(),
    {
        proof {
            let k = back@.len() - 1;
            assert(given.len() - 1 - k == r@.len());
            assert(D::obeys_from_spec() ==> back@[k] == D::from_spec(given[given.len() - 1 - k]));
        }
        let d = back.pop().unwrap();
        r.push(d);
    }
    assert(D::obeys_from_spec() ==> r@ =~= given.map_values(|v: T| D::from_spec(v)));
    r
}

impl<T> View for InputPin<T> {
    type V = PinState<T>;

    closed spec fn view(&self) -> PinState<T> {
        self.data.state()
    }
}

impl<T> View for OutputPin<T> {
    type V = PinState<T>;

    closed spec fn view(&self) -> PinState<T> {
        self.data.state()
    }
}

impl<T> InputPin<T> {
    /// A pin that holds nothing and is clean.
    pub fn new() -> (r: InputPin<T>)
        ensures
            r@ == PinState::<T>::empty(),
    {
        InputPin { data: PinData::new() }
    }

    /// Whether the values changed since they were last consumed.
    pub fn is_dirty(&self) -> (r: bool)
        ensures
            r == self@.dirty,
    {
        self.data.is_dirty
    }

    /// Replaces what the pin holds by `values` and marks it dirty.
    pub fn set_values(&mut self, values: Vec<T>)
        ensures
            final(self)@ == old(self)@.replaced(values@),
    {
        self.data.put_all(values);
    }

    /// Writes `value` over the first value held, or as the only one where
    /// the pin held nothing. The pin becomes dirty where it held nothing or
    /// held another first value; where it was dirty it stays so.
    pub fn set_value(&mut self, value: T) where T: PartialEq
        ensures
            T::obeys_eq_spec() ==> final(self)@ == old(self)@.written(
                value,
                old(self)@.values.len() > 0 && !value.eq_spec(&old(self)@.values[0]),
            ),
            final(self)@.values == old(self)@.with_first(value),
            old(self)@.first_written(final(self)@),
    {
        self.data.put(value);
    }

    /// Marks the values as consumed.
    pub fn clear_dirty(&mut self)
        ensures
            final(self)@ == old(self)@.cleaned(),
    {
        self.data.is_dirty = false;
    }
}

impl<T> OutputPin<T> {
    /// A pin that holds nothing and is clean.
    pub fn new() -> (r: OutputPin<T>)
        ensures
            r@ == PinState::<T>::empty(),
    {
        OutputPin { data: PinData::new() }
    }

    /// Whether the values changed since they were last consumed.
    pub fn is_dirty(&self) -> (r: bool)
        ensures
            r == self@.dirty,
    {
        self.data.is_dirty
    }

    /// Replaces what the pin holds by `values` and marks it dirty.
    pub fn set_values(&mut self, values: Vec<T>)
        ensures
            final(self)@ == old(self)@.replaced(values@),
    {
        self.data.put_all(values);
    }

    /// Writes `value` over the first value held, or as the only one where
    /// the pin held nothing. The pin becomes dirty where it held nothing or
    /// held another first value; where it was dirty it stays so.
    pub fn set_value(&mut self, value: T) where T: PartialEq
        ensures
            T::obeys_eq_spec() ==> final(self)@ == old(self)@.written(
                value,
                old(self)@.values.len() > 0 && !value.eq_spec(&old(self)@.values[0]),
            ),
            final(self)@.values == old(self)@.with_first(value),
            old(self)@.first_written(final(self)@),
    {
        self.data.put(value);
    }

    /// Marks the values as consumed.
    pub fn clear_dirty(&mut self)
        ensures
            final(self)@ == old(self)@.cleaned(),
    {
        self.data.is_dirty = false;
    }
}

impl<T> Default for InputPin<T> {
    fn default() -> (r: InputPin<T>)
        ensures
            r@ == PinState::<T>::empty(),
    {
        InputPin { data: PinData::new() }
    }
}

impl<T> Default for OutputPin<T> {
    fn default() -> (r: OutputPin<T>)
        ensures
            r@ == PinState::<T>::empty(),
    {
        OutputPin { data: PinData::new() }
    }
}

impl<T, D: From<T> + PartialEq> IPin<T> for PinData<D> {
    type Held = D;

    closed spec fn held(&self) -> PinState<D> {
        self.state()
    }

    open spec fn converts() -> bool {
        D::obeys_from_spec() && D::obeys_eq_spec()
    }

    open spec fn converted(value: T) -> D {
        D::from_spec(value)
    }

    open spec fn differs(a: D, b: D) -> bool {
        !a.eq_spec(&b)
    }

    fn value_in(&mut self, value: T)
        ensures
            D::obeys_from_spec() ==> final(self).held().values == old(self).held().with_first(
                D::from_spec(value),
            ),
    {
        self.put(D::from(value));
    }

    fn values_in(&mut self, values: Vec<T>)
        ensures
            D::obeys_from_spec() ==> final(self).held() == old(self).held().replaced(
                values@.map_values(|v: T| D::from_spec(v)),
            ),
    {
        self.put_all(convert_all(values));
        proof {
            assert(values@.map_values(|v: T| Self::converted(v)) =~= values@.map_values(
                |v: T| D::from_spec(v),
            ));
        }
    }
}

impl<T, D: From<T> + PartialEq> IPin<T> for InputPin<D> {
    type Held = D;

    open spec fn held(&self) -> PinState<D> {
        self@
    }

    open spec fn converts() -> bool {
        D::obeys_from_spec() && D::obeys_eq_spec()
    }

    open spec fn converted(value: T) -> D {
        D::from_spec(value)
    }

    open spec fn differs(a: D, b: D) -> bool {
        !a.eq_spec(&b)
    }

    fn value_in(&mut self, value: T)
        ensures
            D::obeys_from_spec() ==> final(self).held().values == old(self).held().with_first(
                D::from_spec(value),
            ),
    {
        self.data.value_in(value);
    }

    fn values_in(&mut self, values: Vec<T>)
        ensures
            D::obeys_from_spec() ==> final(self).held() == old(self).held().replaced(
                values@.map_values(|v: T| D::from_spec(v)),
            ),
    {
        self.data.values_in(values);
        proof {
            assert(values@.map_values(|v: T| Self::converted(v)) =~= values@.map_values(
                |v: T| D::from_spec(v),
            ));
        }
    }
}

impl<T, D: From<T> + PartialEq> IPin<T> for OutputPin<D> {
    type Held = D;

    open spec fn held(&self) -> PinState<D> {
        self@
    }

    open spec fn converts() -> bool {
        D::obeys_from_spec() && D::obeys_eq_spec()
    }

    open spec fn converted(value: T) -> D {
        D::from_spec(value)
    }

    open spec fn differs(a: D, b: D) -> bool {
        !a.eq_spec(&b)
    }

    fn value_in(&mut self, value: T)
        ensures
            D::obeys_from_spec() ==> final(self).held().values == old(self).held().with_first(
                D::from_spec(value),
            ),
    {
        self.data.value_in(value);
    }

    fn values_in(&mut self, values: Vec<T>)
        ensures
            D::obeys_from_spec() ==> final(self).held() == old(self).held().replaced(
                values@.map_values(|v: T| D::from_spec(v)),
            ),
    {
        self.data.values_in(values);
        proof {
            assert(values@.map_values(|v: T| Self::converted(v)) =~= values@.map_values(
                |v: T| D::from_spec(v),
            ));
        }
    }
}

impl<T: Clone> OPin<T> for PinData<T> {
    closed spec fn offered(&self) -> Seq<T> {
        self.state().values
    }

    fn value_out(&self) -> (r: Option<&T>) {
        if self.data.len() == 0 {
            None
        } else {
            Some(&self.data[0])
        }
    }

    fn values_out(&self) -> (r: &Vec<T>) {
        &self.data
    }
}

impl<T: Clone> OPin<T> for InputPin<T> {
    open spec fn offered(&self) -> Seq<T> {
        self@.values
    }

    fn value_out(&self) -> (r: Option<&T>) {
        self.data.value_out()
    }

    fn values_out(&self) -> (r: &Vec<T>) {
        self.data.values_out()
    }
}

impl<T: Clone> OPin<T> for OutputPin<T> {
    open spec fn offered(&self) -> Seq<T> {
        self@.values
    }

    fn value_out(&self) -> (r: Option<&T>) {
        self.data.value_out()
    }

    fn values_out(&self) -> (r: &Vec<T>) {
        self.data.values_out()
    }
}

} // verus!
