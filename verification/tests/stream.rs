use gobx::decode::Decoder;
use gobx::encode::Encoder;
use gobx::error::GobError;
use gobx::value::Value;
use gobx::writer::GobWriter;
use std::cmp::Ordering;

fn record() -> Value {
    Value::Struct(
        "T".to_string(),
        vec![
            ("A".to_string(), Value::Int(7)),
            ("B".to_string(), Value::String("hi".to_string())),
        ],
    )
}

#[test]
fn struct_value_is_two_frames() {
    let mut w = GobWriter::new(Vec::new());
    w.encode(&record()).unwrap();
    let bytes = w.into_inner();
    let definition: Vec<u8> = vec![
        27, 0xFF, 0x81, // length, identifier -65
        3, // the struct field of the descriptor
        1, 1, 1, b'T', 1, 0xFF, 0x82, 0, // header: name "T", identifier 65
        1, 2, // two fields
        1, 1, b'A', 1, 4, 0, // ("A", 2)
        1, 1, b'B', 1, 12, 0, // ("B", 6)
        0, 0,
    ];
    let value: Vec<u8> = vec![9, 0xFF, 0x82, 1, 14, 1, 2, b'h', b'i', 0];
    let mut expected = definition.clone();
    expected.extend_from_slice(&value);
    assert_eq!(bytes, expected);
}

#[test]
fn struct_value_round_trips() {
    let mut w = GobWriter::new(Vec::new());
    w.encode(&record()).unwrap();
    let mut d = Decoder::new(w.into_inner());
    assert_eq!(d.read_next(), Ok(Some(record())));
    assert_eq!(d.read_next(), Ok(None));
}

#[test]
fn second_value_of_a_type_needs_no_definition() {
    let mut w = GobWriter::new(Vec::new());
    w.encode(&record()).unwrap();
    let first = w.into_inner();
    let mut w = GobWriter::new(Vec::new());
    w.encode(&record()).unwrap();
    w.encode(&record()).unwrap();
    let both = w.into_inner();
    assert_eq!(both.len(), first.len() + 10);
    let mut d = Decoder::new(both);
    assert_eq!(d.read_next(), Ok(Some(record())));
    assert_eq!(d.read_next(), Ok(Some(record())));
    assert_eq!(d.read_next(), Ok(None));
}

#[test]
fn map_entry_is_an_interface_value() {
    let v = Value::Dict(vec![(Value::String("k".to_string()), Value::Int(42))]);
    let mut w = GobWriter::new(Vec::new());
    w.encode(&v).unwrap();
    let bytes = w.into_inner();
    // The value's frame is the last 24 bytes: length, identifier 65, count,
    // then key and element.
    let frame = &bytes[bytes.len() - 24..];
    let expected: Vec<u8> = vec![
        23, 0xFF, 0x82, 1, // length, identifier 65, one entry
        6, b's', b't', b'r', b'i', b'n', b'g', 12, 2, 1, b'k', // "string", 6, length 2, "k"
        5, b'i', b'n', b't', b'6', b'4', 4, 1, 84, // "int64", 2, length 1, 42
    ];
    assert_eq!(frame, &expected[..]);
    let mut d = Decoder::new(bytes);
    assert_eq!(d.read_next(), Ok(Some(v)));
}

#[test]
fn zero_payload_gets_a_marker() {
    let v = Value::Dict(vec![(Value::Int(0), Value::String(String::new()))]);
    let mut w = GobWriter::new(Vec::new());
    w.encode(&v).unwrap();
    let bytes = w.into_inner();
    let tail = &bytes[bytes.len() - 21..];
    let expected: Vec<u8> = vec![
        5, b'i', b'n', b't', b'6', b'4', 4, 2, 0, 0, // int64, 2, length 2, marker, 0
        6, b's', b't', b'r', b'i', b'n', b'g', 12, 2, 0, 0, // string, 6, length 2, marker, ""
    ];
    assert_eq!(tail, &expected[..]);
    let mut d = Decoder::new(bytes);
    assert_eq!(d.read_next(), Ok(Some(v)));
}

#[test]
fn nested_values_round_trip() {
    let inner = Value::Struct(
        "Inner".to_string(),
        vec![
            ("flag".to_string(), Value::Bool(true)),
            ("raw".to_string(), Value::Bytes(vec![0, 1, 2, 255])),
        ],
    );
    let map = Value::Dict(vec![
        (Value::Nil, Value::Uint(300)),
        (Value::Int(-5), inner),
        (Value::String("f".to_string()), Value::Float(1.5f64.to_bits())),
    ]);
    let outer = Value::Struct(
        "Outer".to_string(),
        vec![("m".to_string(), map), ("n".to_string(), Value::Int(-129))],
    );
    let mut w = GobWriter::new(Vec::new());
    w.encode(&outer).unwrap();
    w.encode(&Value::Uint(u64::MAX)).unwrap();
    let mut d = Decoder::new(w.into_inner());
    assert_eq!(d.read_next(), Ok(Some(outer)));
    assert_eq!(d.read_next(), Ok(Some(Value::Uint(u64::MAX))));
    assert_eq!(d.read_next(), Ok(None));
}

#[test]
fn unknown_identifier_is_unknown_type() {
    // length 2, identifier 70, one byte of body
    let mut d = Decoder::new(vec![3, 0xFF, 140, 0]);
    assert_eq!(d.read_next(), Err(GobError::UnknownType));
}

#[test]
fn field_index_past_the_schema_is_invalid() {
    let mut w = GobWriter::new(Vec::new());
    w.encode(&record()).unwrap();
    let mut bytes = w.into_inner();
    // a second value of the type, whose first delta leads to field 2
    bytes.extend_from_slice(&[5, 0xFF, 0x82, 3, 14, 0]);
    let mut d = Decoder::new(bytes);
    assert_eq!(d.read_next(), Ok(Some(record())));
    assert_eq!(d.read_next(), Err(GobError::InvalidData));
}

#[test]
fn array_is_unsupported() {
    let mut w = GobWriter::new(Vec::new());
    assert_eq!(w.encode(&Value::Array(vec![Value::Int(1)])), Err(GobError::Unsupported));
}

#[test]
fn cut_frame_is_truncated_message() {
    let mut w = GobWriter::new(Vec::new());
    w.encode(&Value::String("hello".to_string())).unwrap();
    let mut bytes = w.into_inner();
    bytes.pop();
    let mut d = Decoder::new(bytes);
    assert_eq!(d.read_next(), Err(GobError::TruncatedMessage));
}

#[test]
fn source_cut_in_a_length_is_truncated_stream() {
    let mut d = Decoder::new(vec![0xFE, 1]);
    assert_eq!(d.read_next(), Err(GobError::TruncatedStream));
}

#[test]
fn slack_in_a_message_is_passed_over() {
    // a bool message with two bytes of slack, then an int message
    let mut d = Decoder::new(vec![4, 2, 1, 9, 9, 2, 4, 3]);
    assert_eq!(d.read_next(), Ok(Some(Value::Bool(true))));
    assert_eq!(d.read_next(), Ok(Some(Value::Int(-2))));
    assert_eq!(d.read_next(), Ok(None));
}

#[test]
fn missing_slack_is_truncated_stream() {
    let mut d = Decoder::new(vec![4, 2, 1, 9]);
    assert_eq!(d.read_next(), Err(GobError::TruncatedStream));
}

#[test]
fn redefinition_is_refused() {
    let mut w = GobWriter::new(Vec::new());
    w.encode(&record()).unwrap();
    let first = w.into_inner();
    let mut w = GobWriter::new(Vec::new());
    w.encode(&Value::Struct("U".to_string(), vec![])).unwrap();
    let second = w.into_inner();
    let mut bytes = first;
    bytes.extend_from_slice(&second);
    let mut d = Decoder::new(bytes);
    assert_eq!(d.read_next(), Ok(Some(record())));
    assert_eq!(d.read_next(), Err(GobError::Redefinition));
}

#[test]
fn type_limit_is_enforced() {
    let mut w = GobWriter::new(Vec::new());
    w.encode(&record()).unwrap();
    let mut d = Decoder::with_type_limit(w.into_inner(), 8);
    assert_eq!(d.read_next(), Err(GobError::TooManyTypes));
}

#[test]
fn wire_wrapper_writes_name_id_and_payload() {
    let mut enc = Encoder::new(Vec::new());
    gobx::encode::encode_as_interface(&42i64, &mut enc).unwrap();
    assert_eq!(enc.into_inner(), vec![5, b'i', b'n', b't', b'6', b'4', 4, 1, 84]);
}

#[test]
fn parse_collects_every_value() {
    let mut w = GobWriter::new(Vec::new());
    w.encode(&Value::Int(1)).unwrap();
    w.encode(&record()).unwrap();
    w.encode(&Value::Bool(true)).unwrap();
    let mut d = Decoder::new(w.into_inner());
    assert_eq!(d.parse(), Ok(vec![Value::Int(1), record(), Value::Bool(true)]));
}

#[test]
fn decode_into_reads_a_typed_value() {
    let mut w = GobWriter::new(Vec::new());
    w.encode(&Value::String("abc".to_string())).unwrap();
    w.encode(&Value::Int(-7)).unwrap();
    let mut d = Decoder::new(w.into_inner());
    assert_eq!(d.decode_into::<String>(), Ok("abc".to_string()));
    assert_eq!(d.decode_into::<i64>(), Ok(-7));
    assert_eq!(d.decode_into::<i64>(), Err(GobError::TruncatedStream));
}

#[test]
fn values_compare_in_canonical_order() {
    assert_eq!(Value::Nil.cmp(&Value::Bool(false)), Ordering::Less);
    assert_eq!(Value::Int(5).cmp(&Value::Uint(0)), Ordering::Less);
    assert_eq!(Value::String("b".into()).cmp(&Value::String("ab".into())), Ordering::Greater);
    assert_eq!(
        Value::Array(vec![Value::Int(1)]).cmp(&Value::Array(vec![Value::Int(1), Value::Nil])),
        Ordering::Less
    );
    assert_eq!(Value::Float(f64::NAN.to_bits()), Value::Float(f64::NAN.to_bits()));
    assert_eq!(record().cmp(&record()), Ordering::Equal);
    assert_eq!(record().clone(), record());
}

#[test]
fn plain_encoding_has_no_schema() {
    let v = Value::Array(vec![Value::Int(1), Value::String("a".into())]);
    let mut enc = Encoder::new(Vec::new());
    v.encode(&mut enc).unwrap();
    assert_eq!(enc.into_inner(), vec![2, 2, 1, b'a']);
    let mut enc = Encoder::new(Vec::new());
    assert_eq!(record().encode(&mut enc), Err(GobError::Unsupported));
}

#[test]
fn registry_after_a_prefix_does_not_depend_on_the_rest() {
    let mut w = GobWriter::new(Vec::new());
    w.encode(&record()).unwrap();
    let prefix = w.into_inner();
    let mut w = GobWriter::new(Vec::new());
    w.encode(&record()).unwrap();
    w.encode(&Value::Dict(vec![(Value::Int(1), Value::Nil)])).unwrap();
    let whole = w.into_inner();
    assert_eq!(&whole[..prefix.len()], &prefix[..]);

    let mut alone = Decoder::new(prefix);
    let mut within = Decoder::new(whole);
    assert_eq!(alone.read_next(), within.read_next());
    for id in 0..70 {
        assert_eq!(alone.knows(id), within.knows(id));
        assert!(alone.schema(id).same(&within.schema(id)));
    }
    assert!(alone.knows(65));
    assert!(!alone.knows(66));
    // the registry only grows
    assert!(within.read_next().unwrap().is_some());
    assert!(within.knows(65));
    assert!(within.knows(66));
}

#[test]
fn cut_inside_a_wide_integer_is_invalid_data() {
    // a message of type 3 that holds 128, and the same without its last byte
    let mut d = Decoder::new(vec![3, 6, 0xFF, 0x80]);
    assert_eq!(d.read_next(), Ok(Some(Value::Uint(128))));
    let mut d = Decoder::new(vec![3, 6, 0xFF]);
    assert_eq!(d.read_next(), Err(GobError::InvalidData));
}

#[test]
fn every_cut_of_a_message_fails() {
    let mut w = GobWriter::new(Vec::new());
    w.encode(&record()).unwrap();
    let defined = w.into_inner().len();
    let mut w = GobWriter::new(Vec::new());
    w.encode(&record()).unwrap();
    w.encode(&record()).unwrap();
    let bytes = w.into_inner();
    // the second message has a header of three bytes
    for end in defined + 3..bytes.len() {
        let mut d = Decoder::new(bytes[..end].to_vec());
        assert_eq!(d.read_next(), Ok(Some(record())));
        let r = d.read_next();
        assert!(
            r == Err(GobError::TruncatedMessage) || r == Err(GobError::InvalidData),
            "cut at {}: {:?}",
            end,
            r
        );
    }
}

#[test]
fn definition_inside_an_interface_value_is_registered() {
    // a message of type 8 (interface): name "T", identifier -65 with the
    // definition of a struct with one boolean field "A", a length, and the
    // struct value with the field set
    let bytes: Vec<u8> = vec![
        28, 16, // length, identifier 8
        1, b'T', 0xFF, 0x81, // name, identifier -65
        3, 1, 1, 1, b'T', 1, 0xFF, 0x82, 0, 1, 1, 1, 1, b'A', 1, 2, 0, 0, 0, // definition
        3, 1, 1, 0, // length, the field, the end
    ];
    let mut d = Decoder::new(bytes);
    assert_eq!(
        d.read_next(),
        Ok(Some(Value::Struct("T".to_string(), vec![("A".to_string(), Value::Bool(true))])))
    );
    assert!(d.knows(65));
}

#[test]
fn unsupported_definitions_are_refused() {
    // a definition whose descriptor is an array type
    let mut d = Decoder::new(vec![4, 0xFF, 0x81, 1, 0]);
    assert_eq!(d.read_next(), Err(GobError::Unsupported));
    // a definition with no descriptor at all
    let mut d = Decoder::new(vec![3, 0xFF, 0x81, 0]);
    assert_eq!(d.read_next(), Err(GobError::InvalidData));
    // a value of the reserved type 7
    let mut d = Decoder::new(vec![2, 14, 0]);
    assert_eq!(d.read_next(), Err(GobError::Unsupported));
}

#[test]
fn map_count_larger_than_the_message_is_invalid() {
    let mut w = GobWriter::new(Vec::new());
    w.encode(&Value::Dict(vec![])).unwrap();
    let mut bytes = w.into_inner();
    // a second map message that announces nine entries and holds none
    bytes.extend_from_slice(&[3, 0xFF, 0x82, 9]);
    let mut d = Decoder::new(bytes);
    assert_eq!(d.read_next(), Ok(Some(Value::Dict(vec![]))));
    assert_eq!(d.read_next(), Err(GobError::InvalidData));
}

#[test]
fn later_entry_replaces_an_earlier_one_with_the_same_key() {
    let mut w = GobWriter::new(Vec::new());
    w.encode(&Value::Dict(vec![])).unwrap();
    let mut bytes = w.into_inner();
    // two entries with the key 1, and one with the key 0 after them
    bytes.extend_from_slice(&[
        42, 0xFF, 0x82, 3, //
        5, b'i', b'n', b't', b'6', b'4', 4, 1, 2, // the key 1
        5, b'i', b'n', b't', b'6', b'4', 4, 1, 10, // the element 5
        5, b'i', b'n', b't', b'6', b'4', 4, 1, 2, // the key 1
        0, // the element nil
        5, b'i', b'n', b't', b'6', b'4', 4, 2, 0, 0, // the key 0
        0, // the element nil
    ]);
    let mut d = Decoder::new(bytes);
    assert_eq!(d.read_next(), Ok(Some(Value::Dict(vec![]))));
    assert_eq!(
        d.read_next(),
        Ok(Some(Value::Dict(vec![(Value::Int(0), Value::Nil), (Value::Int(1), Value::Nil)])))
    );
}

#[test]
fn definitions_written_by_hand_are_read() {
    let mut w = GobWriter::new(Vec::new());
    w.send_map_type_def(70, 6, 2).unwrap();
    w.send_struct_type_def(
        71,
        "Pair",
        vec![
            gobx::types::FieldType { name: "k".to_string(), id: 6 },
            gobx::types::FieldType { name: "m".to_string(), id: 70 },
        ],
    )
    .unwrap();
    let mut bytes = w.into_inner();
    // a value of type 71: k = "a", m = {"b": -1}
    bytes.extend_from_slice(&[11, 0xFF, 0x8E, 1, 1, b'a', 1, 1, 1, b'b', 1, 0]);
    let mut d = Decoder::new(bytes);
    assert_eq!(
        d.read_next(),
        Ok(Some(Value::Struct(
            "Pair".to_string(),
            vec![
                ("k".to_string(), Value::String("a".to_string())),
                (
                    "m".to_string(),
                    Value::Dict(vec![(Value::String("b".to_string()), Value::Int(-1))])
                ),
            ]
        )))
    );
    assert!(d.schema(70).same(&d.schema(70)));
    assert!(!d.schema(70).same(&d.schema(71)));
    assert!(!d.knows(72));
}

#[test]
fn framer_steps_can_be_taken_one_by_one() {
    let mut d = Decoder::new(vec![3, 4, 0xFF, 0x80, 2, 2, 1]);
    assert_eq!(d.process_next_message_header(), Ok(Some(2)));
    assert_eq!(d.remaining(), 2);
    assert_eq!(d.read_u8(), Ok(0xFF));
    // the rest of the message is passed over
    assert_eq!(d.process_next_message_header(), Ok(Some(1)));
    assert_eq!(d.skip_marker(), Ok(()));
    assert_eq!(d.read_bool(), Ok(true));
    assert_eq!(d.read_bool(), Err(GobError::TruncatedMessage));
    assert_eq!(d.close(), Ok(()));
    assert_eq!(d.process_next_message_header(), Ok(None));
}

#[test]
fn registering_by_hand() {
    let mut d = Decoder::new(Vec::new());
    let s = d.schema(2);
    assert_eq!(d.register_type(2, s), Ok(()));
    let s = d.schema(3);
    assert_eq!(d.register_type(2, s), Err(GobError::Redefinition));
    let s = d.schema(3);
    assert_eq!(d.register_type(90, s), Ok(()));
    assert!(d.knows(90));
}
