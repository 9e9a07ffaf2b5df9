use stream_core::accumulator::{AggregateError, ArrayAggAccumulator, SerializableAccumulator};
use stream_core::value::{DataType, Scalar, Value};

fn ints(values: Vec<Option<i32>>) -> Vec<Scalar> {
    values.into_iter().map(Scalar::Int32).collect()
}

fn texts(values: Vec<Option<&str>>) -> Vec<Scalar> {
    values
        .into_iter()
        .map(|v| Scalar::Utf8(v.map(|t| t.to_string())))
        .collect()
}

#[test]
fn test_serialize_deserialize_int32() -> Result<(), AggregateError> {
    let mut acc = ArrayAggAccumulator::try_new(&DataType::Int32)?;
    acc.update_batch(&ints(vec![Some(1), Some(2), Some(3)]))?;

    let serialized = SerializableAccumulator::serialize(&mut acc)?;
    let deserialized = ArrayAggAccumulator::deserialize(serialized)?;

    assert_eq!(acc.evaluate(), deserialized.evaluate());
    Ok(())
}

#[test]
fn test_serialize_deserialize_string() -> Result<(), AggregateError> {
    let mut acc = ArrayAggAccumulator::try_new(&DataType::Utf8)?;
    acc.update_batch(&texts(vec![Some("hello"), Some("world"), None]))?;

    let serialized = SerializableAccumulator::serialize(&mut acc)?;
    let deserialized = ArrayAggAccumulator::deserialize(serialized)?;

    assert_eq!(acc.evaluate(), deserialized.evaluate());
    Ok(())
}

#[test]
fn test_serialize_deserialize_empty() -> Result<(), AggregateError> {
    let mut acc = ArrayAggAccumulator::try_new(&DataType::Int32)?;

    let serialized = SerializableAccumulator::serialize(&mut acc)?;
    let result = ArrayAggAccumulator::deserialize(serialized);

    assert!(result.is_err());
    assert!(result.unwrap_err().message().contains("Empty state"));
    Ok(())
}

#[test]
fn test_serialize_deserialize_multiple_updates() -> Result<(), AggregateError> {
    let mut acc = ArrayAggAccumulator::try_new(&DataType::Int32)?;
    acc.update_batch(&ints(vec![Some(1), Some(2)]))?;
    acc.update_batch(&ints(vec![Some(3), Some(4)]))?;

    let serialized = SerializableAccumulator::serialize(&mut acc)?;
    let deserialized = ArrayAggAccumulator::deserialize(serialized)?;

    assert_eq!(acc.evaluate(), deserialized.evaluate());
    Ok(())
}

#[test]
fn test_serialize_deserialize_with_nulls() -> Result<(), AggregateError> {
    let mut acc = ArrayAggAccumulator::try_new(&DataType::Int32)?;
    acc.update_batch(&ints(vec![Some(1), None, Some(3)]))?;

    let serialized = SerializableAccumulator::serialize(&mut acc)?;
    let deserialized = ArrayAggAccumulator::deserialize(serialized)?;

    assert_eq!(acc.evaluate(), deserialized.evaluate());
    Ok(())
}

#[test]
fn collected_values_serialize_to_one_tagged_list() {
    let mut acc = ArrayAggAccumulator::try_new(&DataType::Int32).unwrap();
    acc.update_batch(&ints(vec![Some(1), Some(2), Some(3)])).unwrap();
    let blob = acc.serialize().unwrap();
    assert_eq!(
        blob,
        "{\"state\":[{\"type\":\"List\",\"item\":\"Int32\",\"value\":[\
         {\"type\":\"Int32\",\"value\":1},{\"type\":\"Int32\",\"value\":2},\
         {\"type\":\"Int32\",\"value\":3}]}]}"
    );

    let mut restored = ArrayAggAccumulator::deserialize(blob).unwrap();
    let mut other = ArrayAggAccumulator::try_new(&DataType::Int32).unwrap();
    other.update_batch(&ints(vec![Some(4)])).unwrap();
    restored.merge_batch(&other.state()).unwrap();
    assert_eq!(
        restored.evaluate(),
        Value::List(DataType::Int32, ints(vec![Some(1), Some(2), Some(3), Some(4)]))
    );
}

#[test]
fn restored_then_merged_equals_direct_update() {
    let mut acc = ArrayAggAccumulator::try_new(&DataType::Int64).unwrap();
    acc.update_batch(&vec![Scalar::Int64(Some(-7)), Scalar::Int64(None)]).unwrap();
    let blob = acc.serialize().unwrap();
    let batch = vec![Scalar::Int64(Some(i64::MAX)), Scalar::Int64(Some(0))];

    let mut restored = ArrayAggAccumulator::deserialize(blob).unwrap();
    let mut partial = ArrayAggAccumulator::try_new(&DataType::Int64).unwrap();
    partial.update_batch(&batch).unwrap();
    restored.merge_batch(&partial.state()).unwrap();

    acc.update_batch(&batch).unwrap();
    assert_eq!(restored.evaluate(), acc.evaluate());
}

#[test]
fn malformed_blob_is_a_decode_error() {
    let r = ArrayAggAccumulator::deserialize("not valid".to_string());
    assert_eq!(r.unwrap_err(), AggregateError::Decode);
}

#[test]
fn non_list_state_is_invalid() {
    let blob = "{\"state\":[{\"type\":\"Int32\",\"value\":1}]}".to_string();
    assert_eq!(ArrayAggAccumulator::deserialize(blob).unwrap_err(), AggregateError::InvalidState);
}

#[test]
fn heterogeneous_state_is_invalid() {
    let blob = "{\"state\":[{\"type\":\"List\",\"item\":\"Int32\",\"value\":[{\"type\":\"Int32\",\"value\":1}]},\
                {\"type\":\"List\",\"item\":\"Utf8\",\"value\":[{\"type\":\"Utf8\",\"value\":\"a\"}]}]}"
        .to_string();
    assert_eq!(ArrayAggAccumulator::deserialize(blob).unwrap_err(), AggregateError::InvalidState);
}

#[test]
fn empty_state_sequence_is_empty_state() {
    let blob = "{\"state\":[]}".to_string();
    assert_eq!(ArrayAggAccumulator::deserialize(blob).unwrap_err(), AggregateError::EmptyState);
}

#[test]
fn update_with_wrong_type_is_refused_and_changes_nothing() {
    let mut acc = ArrayAggAccumulator::try_new(&DataType::Int32).unwrap();
    acc.update_batch(&ints(vec![Some(5)])).unwrap();
    let r = acc.update_batch(&vec![Scalar::Int32(Some(6)), Scalar::Utf8(Some("x".to_string()))]);
    assert_eq!(r, Err(AggregateError::TypeMismatch));
    assert_eq!(acc.evaluate(), Value::List(DataType::Int32, ints(vec![Some(5)])));
}

#[test]
fn merge_with_wrong_type_is_refused() {
    let mut acc = ArrayAggAccumulator::try_new(&DataType::Int32).unwrap();
    let r = acc.merge_batch(&vec![Value::List(DataType::Int64, vec![])]);
    assert_eq!(r, Err(AggregateError::TypeMismatch));
    let r = acc.merge_batch(&vec![Value::Scalar(Scalar::Int32(Some(1)))]);
    assert_eq!(r, Err(AggregateError::TypeMismatch));
}

#[test]
fn error_messages_are_not_empty() {
    for e in [
        AggregateError::Decode,
        AggregateError::EmptyState,
        AggregateError::InvalidState,
        AggregateError::TypeMismatch,
    ] {
        assert!(!e.message().is_empty());
    }
}
