//! Self-describing values: every value carries its logical type, and a typed
//! value may be null.
use vstd::prelude::*;

verus! {

/// The logical type of a value.
#[derive(Clone, Copy, Debug, PartialEq, Eq, Structural)]
pub enum DataType {
    Null,
    Boolean,
    Int32,
    Int64,
    Utf8,
}

/// A primitive value together with its type; `None` is a null of that type.
#[derive(Debug, PartialEq, Eq)]
pub enum Scalar {
    Null,
    Boolean(Option<bool>),
    Int32(Option<i32>),
    Int64(Option<i64>),
    Utf8(Option<String>),
}

/// The mathematical content of a `Scalar`: text is a sequence of characters.
pub ghost enum ScalarModel {
    Null,
    Boolean(Option<bool>),
    Int32(Option<i32>),
    Int64(Option<i64>),
    Utf8(Option<Seq<char>>),
}

/// An element of an aggregation state: a primitive value, or a typed list of them.
#[derive(Debug, PartialEq, Eq)]
pub enum Value {
    Scalar(Scalar),
    List(DataType, Vec<Scalar>),
}

/// The mathematical content of a `Value`.
pub ghost enum ValueModel {
    Scalar(ScalarModel),
    List(DataType, Seq<ScalarModel>),
}

pub open spec fn model_type(m: ScalarModel) -> DataType {
    match m {
        ScalarModel::Null => DataType::Null,
        ScalarModel::Boolean(_) => DataType::Boolean,
        ScalarModel::Int32(_) => DataType::Int32,
        ScalarModel::Int64(_) => DataType::Int64,
        ScalarModel::Utf8(_) => DataType::Utf8,
    }
}

/// Every item of `items` is of type `dt`.
pub open spec fn all_of_type(items: Seq<ScalarModel>, dt: DataType) -> bool {
    forall|i: int| 0 <= i < items.len() ==> #[trigger] model_type(items[i]) == dt
}

impl View for Scalar {
    type V = ScalarModel;

    open spec fn view(&self) -> ScalarModel {
        match self {
            Scalar::Null => ScalarModel::Null,
            Scalar::Boolean(b) => ScalarModel::Boolean(*b),
            Scalar::Int32(x) => ScalarModel::Int32(*x),
            Scalar::Int64(x) => ScalarModel::Int64(*x),
            Scalar::Utf8(None) => ScalarModel::Utf8(None),
            Scalar::Utf8(Some(t)) => ScalarModel::Utf8(Some(t@)),
        }
    }
}

pub open spec fn scalars_model(v: Seq<Scalar>) -> Seq<ScalarModel> {
    v.map_values(|s: Scalar| s@)
}

impl View for Value {
    type V = ValueModel;

    open spec fn view(&self) -> ValueModel {
        match self {
            Value::Scalar(s) => ValueModel::Scalar(s@),
            Value::List(dt, items) => ValueModel::List(*dt, scalars_model(items@)),
        }
    }
}

pub open spec fn values_model(v: Seq<Value>) -> Seq<ValueModel> {
    v.map_values(|x: Value| x@)
}

impl Scalar {
    /// The logical type of this value.
    pub fn data_type(&self) -> (r: DataType)
        ensures
            r == model_type(self@),
    {
        match self {
            Scalar::Null => DataType::Null,
            Scalar::Boolean(_) => DataType::Boolean,
            Scalar::Int32(_) => DataType::Int32,
            Scalar::Int64(_) => DataType::Int64,
            Scalar::Utf8(_) => DataType::Utf8,
        }
    }

    /// A copy with the same content.
    pub fn duplicate(&self) -> (r: Scalar)
        ensures
            r@ == self@,
    {
        match self {
            Scalar::Null => Scalar::Null,
            Scalar::Boolean(b) => Scalar::Boolean(*b),
            Scalar::Int32(x) => Scalar::Int32(*x),
            Scalar::Int64(x) => Scalar::Int64(*x),
            Scalar::Utf8(None) => Scalar::Utf8(None),
            Scalar::Utf8(Some(t)) => Scalar::Utf8(Some(t.clone())),
        }
    }
}

/// A copy of `v` with the same content.
pub fn duplicate_scalars(v: &Vec<Scalar>) -> (r: Vec<Scalar>)
    ensures
        scalars_model(r@) == scalars_model(v@),
{
    let mut r: Vec<Scalar> = Vec::new();
    let mut i: usize = 0;
    while i < v.len()
        invariant
            i <= v.len(),
            scalars_model(r@) == scalars_model(v@.take(i as int)),
        decreases v.len() - i,
    {
        let ghost before = r@;
        let s = v[i].duplicate();
        r.push(s);
        proof {
            assert(v@.take(i + 1) =~= v@.take(i as int).push(v@[i as int]));
            assert(scalars_model(r@) =~= scalars_model(before).push(s@));
        }
        i = i + 1;
    }
    assert(v@.take(i as int) =~= v@);
    r
}

} // verus!
