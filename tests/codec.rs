use stream_core::codec::{chars_of, decode_state, encode_state, string_of};
use stream_core::value::{DataType, Scalar, Value};

fn round_trip(state: Vec<Value>) {
    let blob = encode_state(&state);
    assert_eq!(decode_state(&blob), Some(state));
}

#[test]
fn every_kind_round_trips() {
    round_trip(vec![
        Value::Scalar(Scalar::Null),
        Value::Scalar(Scalar::Boolean(Some(true))),
        Value::Scalar(Scalar::Boolean(Some(false))),
        Value::Scalar(Scalar::Boolean(None)),
        Value::Scalar(Scalar::Int32(Some(i32::MIN))),
        Value::Scalar(Scalar::Int32(Some(i32::MAX))),
        Value::Scalar(Scalar::Int32(Some(0))),
        Value::Scalar(Scalar::Int32(None)),
        Value::Scalar(Scalar::Int64(Some(i64::MIN))),
        Value::Scalar(Scalar::Int64(Some(i64::MAX))),
        Value::Scalar(Scalar::Int64(Some(-10))),
        Value::Scalar(Scalar::Int64(None)),
        Value::Scalar(Scalar::Utf8(Some(String::new()))),
        Value::Scalar(Scalar::Utf8(None)),
    ]);
}

#[test]
fn text_with_separators_round_trips() {
    round_trip(vec![Value::List(
        DataType::Utf8,
        vec![
            Scalar::Utf8(Some("a,b]}\"c\\d\ne\rf\tg".to_string())),
            Scalar::Utf8(Some("{\"type\":\"Int32\",\"value\":1}".to_string())),
            Scalar::Utf8(Some("héllo ✓".to_string())),
            Scalar::Utf8(None),
        ],
    )]);
}

#[test]
fn empty_state_and_empty_list_round_trip() {
    round_trip(vec![]);
    round_trip(vec![Value::List(DataType::Int32, vec![])]);
    round_trip(vec![
        Value::List(DataType::Null, vec![Scalar::Null]),
        Value::List(DataType::Boolean, vec![Scalar::Boolean(Some(true)), Scalar::Boolean(None)]),
    ]);
}

#[test]
fn scalar_encoding_is_exact() {
    let blob = encode_state(&vec![
        Value::Scalar(Scalar::Int32(Some(-42))),
        Value::Scalar(Scalar::Utf8(Some("q\"\\\n".to_string()))),
        Value::Scalar(Scalar::Boolean(None)),
    ]);
    assert_eq!(
        blob,
        "{\"state\":[{\"type\":\"Int32\",\"value\":-42},{\"type\":\"Utf8\",\"value\":\"q\\\"\\\\\\n\"},\
         {\"type\":\"Boolean\",\"value\":null}]}"
    );
}

#[test]
fn non_canonical_text_is_rejected() {
    for blob in [
        "not valid",
        "",
        "{\"state\":[]}x",
        "{\"state\":[{\"type\":\"Int32\",\"value\":-0}]}",
        "{\"state\":[{\"type\":\"Int32\",\"value\":01}]}",
        "{\"state\":[{\"type\":\"Int32\",\"value\":2147483648}]}",
        "{\"state\":[{\"type\":\"Int64\",\"value\":99999999999999999999}]}",
        "{\"state\":[{\"type\":\"Utf8\",\"value\":\"a\nb\"}]}",
        "{\"state\":[{\"type\":\"Utf8\",\"value\":\"\\x\"}]}",
        "{\"state\":[{\"type\":\"Float\",\"value\":1}]}",
        "{\"state\":[{\"type\":\"Null\",\"value\":1}]}",
        "{\"state\":[{\"type\":\"Int32\",\"value\":1},]}",
        "{\"state\":[{\"type\":\"Int32\",\"value\":1}",
        "{ \"state\":[]}",
    ] {
        assert_eq!(decode_state(blob), None, "{}", blob);
    }
}

#[test]
fn decoding_accepts_hand_written_blob() {
    let blob = "{\"state\":[{\"type\":\"List\",\"item\":\"Int64\",\"value\":[{\"type\":\"Int64\",\"value\":-9223372036854775808}]}]}";
    assert_eq!(
        decode_state(blob),
        Some(vec![Value::List(DataType::Int64, vec![Scalar::Int64(Some(i64::MIN))])])
    );
}

#[test]
fn characters_convert_both_ways() {
    let cs = chars_of("añb");
    assert_eq!(cs, vec!['a', 'ñ', 'b']);
    assert_eq!(string_of(&cs), "añb");
    assert_eq!(string_of(&vec![]), "");
}

#[test]
fn scalar_type_and_copy() {
    let s = Scalar::Utf8(Some("x".to_string()));
    assert_eq!(s.data_type(), DataType::Utf8);
    assert_eq!(s.duplicate(), s);
    assert_eq!(Scalar::Null.data_type(), DataType::Null);
}
