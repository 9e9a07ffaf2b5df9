//! An aggregation operator that collects every value it sees, and the
//! capture and restore of its state through checkpoint blobs.
use vstd::prelude::*;
use crate::codec::{decode_state, encode_state, state_text};
use crate::value::{
    DataType, Scalar, ScalarModel, Value, ValueModel, all_of_type, duplicate_scalars,
    scalars_model, values_model,
};

verus! {

/// Why an aggregation step, or the restore of a checkpoint, failed.
#[derive(Clone, Copy, Debug, PartialEq, Eq, Structural)]
pub enum AggregateError {
    /// The blob is not a checkpoint.
    Decode,
    /// The checkpoint holds no values, so there is nothing to restore.
    EmptyState,
    /// The checkpoint is well formed but its elements do not fit together.
    InvalidState,
    /// A value is not of the operator's type.
    TypeMismatch,
}

impl AggregateError {
    /// A human-readable description of the error.
    pub fn message(&self) -> (r: String)
        ensures
            r@ == match *self {
                AggregateError::Decode => "Malformed checkpoint"@,
                AggregateError::EmptyState => "Empty state: nothing to restore"@,
                AggregateError::InvalidState => "Invalid state for ArrayAggAccumulator"@,
                AggregateError::TypeMismatch => "Value of the wrong type"@,
            },
    {
        let r = match self {
            AggregateError::Decode => String::from_str("Malformed checkpoint"),
            AggregateError::EmptyState => String::from_str("Empty state: nothing to restore"),
            AggregateError::InvalidState => String::from_str(
                "Invalid state for ArrayAggAccumulator",
            ),
            AggregateError::TypeMismatch => String::from_str("Value of the wrong type"),
        };
        r
    }
}

/// The items of all lists in `states`, in order; other elements add none.
pub open spec fn flatten(states: Seq<ValueModel>) -> Seq<ScalarModel>
    decreases states.len(),
{
    if states.len() == 0 {
        Seq::empty()
    } else {
        flatten(states.drop_last()) + match states.last() {
            ValueModel::List(_, items) => items,
            ValueModel::Scalar(_) => Seq::empty(),
        }
    }
}

/// Every element of `states` is a list of values of type `dt`.
pub open spec fn states_fit(states: Seq<ValueModel>, dt: DataType) -> bool {
    forall|i: int|
        0 <= i < states.len() ==> match #[trigger] states[i] {
            ValueModel::List(d, items) => d == dt && all_of_type(items, dt),
            ValueModel::Scalar(_) => false,
        }
}

/// The content of a collecting operator: its element type and the values
/// collected so far, in order.
pub type AggView = (DataType, Seq<ScalarModel>);

pub open spec fn update_spec(v: AggView, batch: Seq<ScalarModel>) -> Result<AggView, AggregateError> {
    if all_of_type(batch, v.0) {
        Ok((v.0, v.1 + batch))
    } else {
        Err(AggregateError::TypeMismatch)
    }
}

pub open spec fn merge_spec(v: AggView, states: Seq<ValueModel>) -> Result<AggView, AggregateError> {
    if states_fit(states, v.0) {
        Ok((v.0, v.1 + flatten(states)))
    } else {
        Err(AggregateError::TypeMismatch)
    }
}

/// What restoring from the decoded state `states` gives: the element type is
/// taken from the first element, and the operator is rebuilt by merging all
/// of them into a fresh one.
pub open spec fn restore_spec(states: Seq<ValueModel>) -> Result<AggView, AggregateError> {
    if states.len() == 0 {
        Err(AggregateError::EmptyState)
    } else {
        match states[0] {
            ValueModel::Scalar(_) => Err(AggregateError::InvalidState),
            ValueModel::List(dt, _) => if !states_fit(states, dt) {
                Err(AggregateError::InvalidState)
            } else if flatten(states).len() == 0 {
                Err(AggregateError::EmptyState)
            } else {
                Ok((dt, flatten(states)))
            },
        }
    }
}

/// An aggregation operator whose state can be captured as a checkpoint blob
/// and restored from one.
pub trait SerializableAccumulator: Sized {
    /// The state this operator reports.
    spec fn state_spec(&self) -> Seq<ValueModel>;

    /// `r` is what restoring from the decoded state `states` may give.
    spec fn restored(states: Seq<ValueModel>, r: Result<Self, AggregateError>) -> bool;

    /// Captures the state as a checkpoint blob; the operator is not changed.
    fn serialize(&mut self) -> (r: Result<String, AggregateError>)
        ensures
            *final(self) == *old(self),
            r matches Ok(s) && s@ == state_text(old(self).state_spec()),
    ;

    /// Rebuilds an operator from a checkpoint blob.
    fn deserialize(bytes: String) -> (r: Result<Self, AggregateError>)
        ensures
            (forall|m: Seq<ValueModel>| #[trigger] state_text(m) != bytes@) ==> r matches Err(
                AggregateError::Decode,
            ),
            forall|m: Seq<ValueModel>|
                #[trigger] state_text(m) == bytes@ ==> Self::restored(m, r),
    ;
}

/// Collects every value it is given, in order of arrival.
#[derive(Debug)]
pub struct ArrayAggAccumulator {
    datatype: DataType,
    values: Vec<Scalar>,
}

impl View for ArrayAggAccumulator {
    type V = AggView;

    closed spec fn view(&self) -> AggView {
        (self.datatype, scalars_model(self.values@))
    }
}

impl ArrayAggAccumulator {
    /// Every collected value is of the operator's type.
    pub open spec fn wf(&self) -> bool {
        all_of_type(self@.1, self@.0)
    }

    /// A fresh operator for values of type `datatype`.
    pub fn try_new(datatype: &DataType) -> (r: Result<Self, AggregateError>)
        ensures
            r matches Ok(a) && a@ == (*datatype, Seq::<ScalarModel>::empty()) && a.wf(),
    {
        let a = ArrayAggAccumulator { datatype: *datatype, values: Vec::new() };
        assert(a@.1 =~= Seq::<ScalarModel>::empty());
        Ok(a)
    }

    pub fn data_type(&self) -> (r: DataType)
        ensures
            r == self@.0,
    {
        self.datatype
    }

    /// Adds the values of `batch`, which must all be of the operator's type.
    pub fn update_batch(&mut self, batch: &Vec<Scalar>) -> (r: Result<(), AggregateError>)
        requires
            old(self).wf(),
        ensures
            final(self).wf(),
            match update_spec(old(self)@, scalars_model(batch@)) {
                Ok(v) => r is Ok && final(self)@ == v,
                Err(e) => r == Err::<(), AggregateError>(e) && *final(self) == *old(self),
            },
    {
        if !all_typed(batch, self.datatype) {
            return Err(AggregateError::TypeMismatch);
        }
        append_scalars(&mut self.values, batch);
        proof {
            lemma_all_of_type_concat(scalars_model(old(self).values@), scalars_model(batch@), self.datatype);
        }
        Ok(())
    }

    /// Merges partial states of the same type: the values of every list are
    /// added, in order. Nothing is added unless every element fits.
    pub fn merge_batch(&mut self, states: &Vec<Value>) -> (r: Result<(), AggregateError>)
        requires
            old(self).wf(),
        ensures
            final(self).wf(),
            match merge_spec(old(self)@, values_model(states@)) {
                Ok(v) => r is Ok && final(self)@ == v,
                Err(e) => r == Err::<(), AggregateError>(e) && *final(self) == *old(self),
            },
    {
        let mut i: usize = 0;
        while i < states.len()
            invariant
                i <= states.len(),
                *self == *old(self),
                old(self).wf(),
                forall|j: int|
                    0 <= j < i ==> match #[trigger] values_model(states@)[j] {
                        ValueModel::List(d, items) => d == self.datatype && all_of_type(items, self.datatype),
                        ValueModel::Scalar(_) => false,
                    },
            decreases states.len() - i,
        {
            let fits = match &states[i] {
                Value::List(d, items) => *d == self.datatype && all_typed(items, self.datatype),
                Value::Scalar(_) => false,
            };
            if !fits {
                proof {
                    assert(values_model(states@)[i as int] == states@[i as int]@);
                    assert(!states_fit(values_model(states@), self.datatype));
                }
                return Err(AggregateError::TypeMismatch);
            }
            i = i + 1;
        }
        let ghost start = scalars_model(self.values@);
        let mut k: usize = 0;
        while k < states.len()
            invariant
                k <= states.len(),
                states_fit(values_model(states@), self.datatype),
                self.datatype == old(self).datatype,
                start == scalars_model(old(self).values@),
                all_of_type(start, self.datatype),
                scalars_model(self.values@) == start + flatten(values_model(states@.take(k as int))),
                all_of_type(scalars_model(self.values@), self.datatype),
            decreases states.len() - k,
        {
            let ghost before = scalars_model(self.values@);
            match &states[k] {
                Value::List(_, items) => {
                    append_scalars(&mut self.values, items);
                    proof {
                        assert(values_model(states@)[k as int] == states@[k as int]@);
                        lemma_all_of_type_concat(before, scalars_model(items@), self.datatype);
                    }
                },
                Value::Scalar(_) => {
                    proof {
                        assert(values_model(states@)[k as int] == states@[k as int]@);
                    }
                },
            }
            proof {
                let vm = values_model(states@.take(k + 1));
                assert(vm.drop_last() =~= values_model(states@.take(k as int)));
                assert(vm.last() == states@[k as int]@);
            }
            k = k + 1;
            assert(scalars_model(self.values@) =~= start + flatten(values_model(states@.take(k as int))));
        }
        assert(states@.take(k as int) =~= states@);
        Ok(())
    }

    /// The state: a single list holding every collected value.
    pub fn state(&self) -> (r: Vec<Value>)
        ensures
            values_model(r@) == seq![ValueModel::List(self@.0, self@.1)],
    {
        let r = vec![Value::List(self.datatype, duplicate_scalars(&self.values))];
        assert(values_model(r@) =~= seq![ValueModel::List(self@.0, self@.1)]);
        r
    }

    /// The result: the list of every collected value.
    pub fn evaluate(&self) -> (r: Value)
        ensures
            r@ == ValueModel::List(self@.0, self@.1),
    {
        Value::List(self.datatype, duplicate_scalars(&self.values))
    }

    /// An operator rebuilt from the decoded state `states`: its type comes
    /// from the first element, and every element is merged into it.
    pub fn restore(states: &Vec<Value>) -> (r: Result<Self, AggregateError>)
        ensures
            match restore_spec(values_model(states@)) {
                Ok(v) => r matches Ok(a) && a@ == v && a.wf(),
                Err(e) => r matches Err(e2) && e2 == e,
            },
    {
        if states.len() == 0 {
            return Err(AggregateError::EmptyState);
        }
        let dt = match &states[0] {
            Value::List(d, _) => *d,
            Value::Scalar(_) => {
                return Err(AggregateError::InvalidState);
            },
        };
        assert(values_model(states@)[0] == states@[0]@);
        let mut acc = ArrayAggAccumulator { datatype: dt, values: Vec::new() };
        assert(acc@.1 =~= Seq::<ScalarModel>::empty());
        match acc.merge_batch(states) {
            Ok(()) => {},
            Err(_) => {
                return Err(AggregateError::InvalidState);
            },
        }
        assert(acc@.1 =~= flatten(values_model(states@)));
        if acc.values.len() == 0 {
            return Err(AggregateError::EmptyState);
        }
        Ok(acc)
    }
}

/// Whether every value of `items` is of type `dt`.
fn all_typed(items: &Vec<Scalar>, dt: DataType) -> (r: bool)
    ensures
        r == all_of_type(scalars_model(items@), dt),
{
    let mut i: usize = 0;
    while i < items.len()
        invariant
            i <= items.len(),
            forall|j: int| 0 <= j < i ==> #[trigger] crate::value::model_type(items@[j]@) == dt,
        decreases items.len() - i,
    {
        if items[i].data_type() != dt {
            assert(crate::value::model_type(scalars_model(items@)[i as int]) != dt);
            return false;
        }
        i = i + 1;
    }
    true
}

fn append_scalars(dst: &mut Vec<Scalar>, src: &Vec<Scalar>)
    ensures
        scalars_model(final(dst)@) == scalars_model(old(dst)@) + scalars_model(src@),
{
    let mut k: usize = 0;
    while k < src.len()
        invariant
            k <= src.len(),
            scalars_model(dst@) == scalars_model(old(dst)@) + scalars_model(src@.take(k as int)),
        decreases src.len() - k,
    {
        let ghost before = dst@;
        let x = src[k].duplicate();
        dst.push(x);
        proof {
            assert(src@.take(k + 1) =~= src@.take(k as int).push(src@[k as int]));
            assert(scalars_model(dst@) =~= scalars_model(before).push(x@));
        }
        k = k + 1;
        assert(scalars_model(dst@) =~= scalars_model(old(dst)@) + scalars_model(src@.take(k as int)));
    }
    assert(src@.take(k as int) =~= src@);
}

proof fn lemma_all_of_type_concat(a: Seq<ScalarModel>, b: Seq<ScalarModel>, dt: DataType)
    requires
        all_of_type(a, dt),
        all_of_type(b, dt),
    ensures
        all_of_type(a + b, dt),
{
    assert forall|i: int| 0 <= i < (a + b).len() implies #[trigger] crate::value::model_type((a + b)[i]) == dt by {
        if i >= a.len() {
            assert((a + b)[i] == b[i - a.len()]);
        }
    }
}

impl SerializableAccumulator for ArrayAggAccumulator {
    open spec fn state_spec(&self) -> Seq<ValueModel> {
        seq![ValueModel::List(self@.0, self@.1)]
    }

    open spec fn restored(states: Seq<ValueModel>, r: Result<Self, AggregateError>) -> bool {
        match restore_spec(states) {
            Ok(v) => r matches Ok(a) && a@ == v && a.wf(),
            Err(e) => r matches Err(e2) && e2 == e,
        }
    }

    fn serialize(&mut self) -> (r: Result<String, AggregateError>) {
        Ok(encode_state(&self.state()))
    }

    fn deserialize(bytes: String) -> (r: Result<Self, AggregateError>) {
        match decode_state(bytes.as_str()) {
            None => Err(AggregateError::Decode),
            Some(states) => ArrayAggAccumulator::restore(&states),
        }
    }
}

} // verus!

verus! {

/// Restoring a captured operator and merging in the state of a further batch
/// gives the same result as giving that batch to the operator itself. The
/// operator must hold at least one value: one that holds none restores to
/// `EmptyState` instead.
pub proof fn lemma_restore_then_merge(acc: ArrayAggAccumulator, batch: Seq<ScalarModel>)
    requires
        acc.wf(),
        acc@.1.len() > 0,
        all_of_type(batch, acc@.0),
    ensures
        restore_spec(acc.state_spec()) == Ok::<AggView, AggregateError>(acc@),
        update_spec((acc@.0, Seq::empty()), batch) == Ok::<AggView, AggregateError>(
            (acc@.0, batch),
        ),
        merge_spec(acc@, seq![ValueModel::List(acc@.0, batch)]) == update_spec(acc@, batch),
{
    let st = acc.state_spec();
    assert(st.drop_last() =~= Seq::<ValueModel>::empty());
    assert(flatten(Seq::<ValueModel>::empty()) =~= Seq::<ScalarModel>::empty());
    assert(flatten(st) =~= acc@.1);
    let more = seq![ValueModel::List(acc@.0, batch)];
    assert(more.drop_last() =~= Seq::<ValueModel>::empty());
    assert(flatten(more) =~= batch);
    assert(Seq::<ScalarModel>::empty() + batch =~= batch);
}

/// Restoring the capture of a fresh operator fails with `EmptyState`.
pub proof fn lemma_fresh_restore_is_empty(datatype: DataType)
    ensures
        restore_spec(seq![ValueModel::List(datatype, Seq::empty())]) == Err::<
            AggView,
            AggregateError,
        >(AggregateError::EmptyState),
{
    let st = seq![ValueModel::List(datatype, Seq::<ScalarModel>::empty())];
    assert(st.drop_last() =~= Seq::<ValueModel>::empty());
    assert(flatten(Seq::<ValueModel>::empty()) =~= Seq::<ScalarModel>::empty());
    assert(flatten(st) =~= Seq::<ScalarModel>::empty());
}

} // verus!
