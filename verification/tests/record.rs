use gobx::binding::{interpret_as_map, parse_map_types, Binding, Field};
use gobx::decode::Decoder;
use gobx::encode::Encoder;
use gobx::error::GobError;
use gobx::object::Type;
use gobx::value::Value;

fn field(name: &str, wire_name: Option<&str>, kind: Type) -> Field {
    Field { name: name.to_string(), wire_name: wire_name.map(|s| s.to_string()), kind }
}

fn user_fields() -> Vec<Field> {
    vec![
        field("uid", None, Type::Int),
        field("uname", None, Type::String),
        field("old_uid", Some("_old_uid"), Type::String),
        field("two_factor_auth", Some("userHasTwoFactorAuth"), Type::Bool),
    ]
}

fn user_record() -> Vec<Value> {
    vec![
        Value::Int(1),
        Value::String("dsotsen".to_string()),
        Value::String("1".to_string()),
        Value::Bool(false),
    ]
}

#[test]
fn map_types_are_split_at_the_first_bracket() {
    assert_eq!(
        parse_map_types("map[interface{}]interface{}"),
        Some(("interface{}".to_string(), "interface{}".to_string()))
    );
    assert_eq!(parse_map_types("map[string][]byte"), Some(("string".to_string(), "[]byte".to_string())));
    assert_eq!(parse_map_types("map[]"), Some((String::new(), String::new())));
    assert_eq!(parse_map_types("map[string"), None);
    assert_eq!(parse_map_types("struct"), None);
    assert_eq!(parse_map_types(""), None);
    assert!(interpret_as_map("map[string"));
    assert!(!interpret_as_map("Map[string]int"));
}

#[test]
fn duplicate_wire_name_is_refused() {
    let fields = vec![field("a", Some("x"), Type::Int), field("b", Some("x"), Type::Int)];
    assert!(matches!(Binding::new(None, None, fields), Err(GobError::DuplicateFieldName)));
    let fields = vec![field("a", None, Type::Int), field("b", Some("a"), Type::Int)];
    assert!(matches!(Binding::new(None, None, fields), Err(GobError::DuplicateFieldName)));
    let fields = vec![field("a", Some("b"), Type::Int), field("b", Some("a"), Type::Int)];
    assert!(Binding::new(None, None, fields).is_ok());
}

#[test]
fn struct_form_sends_fields_in_declared_order() {
    let b = Binding::new(Some(64), None, user_fields()).unwrap();
    assert_eq!(b.id(), Some(64));
    let mut enc = Encoder::new(Vec::new());
    b.encode(&user_record(), &mut enc).unwrap();
    let bytes = enc.into_inner();
    let expected: Vec<u8> = vec![
        1, 2, // uid = 1
        1, 7, b'd', b's', b'o', b't', b's', b'e', b'n', // uname
        1, 1, b'1', // old_uid
        1, 0, // two_factor_auth
        0,
    ];
    assert_eq!(bytes, expected);
    let mut dec = Decoder::new(bytes);
    assert_eq!(b.decode(&mut dec), Ok(user_record()));
}

#[test]
fn struct_form_keeps_zero_for_what_is_not_sent() {
    let b = Binding::new(None, None, user_fields()).unwrap();
    // only the second field, then the end
    let mut dec = Decoder::new(vec![2, 2, b'h', b'i', 0]);
    assert_eq!(
        b.decode(&mut dec),
        Ok(vec![
            Value::Int(0),
            Value::String("hi".to_string()),
            Value::String(String::new()),
            Value::Bool(false),
        ])
    );
    // a delta that leads past the last field
    let mut dec = Decoder::new(vec![5, 0]);
    assert_eq!(b.decode(&mut dec), Err(GobError::InvalidData));
}

#[test]
fn map_form_round_trips() {
    let b = Binding::new(Some(64), Some("map[interface{}]interface{}"), user_fields()).unwrap();
    let mut enc = Encoder::new(Vec::new());
    b.encode(&user_record(), &mut enc).unwrap();
    let bytes = enc.into_inner();
    // four entries, the keys in their canonical order
    assert_eq!(bytes[0], 4);
    assert_eq!(&bytes[1..21], b"\x06string\x0c\x09\x08_old_uid\x06s");
    let mut dec = Decoder::new(bytes);
    assert_eq!(b.decode(&mut dec), Ok(user_record()));
}

#[test]
fn map_form_widens_and_ignores() {
    let b = Binding::new(None, Some("map[interface{}]interface{}"), user_fields()).unwrap();
    let mut w = gobx::writer::GobWriter::new(Vec::new());
    let sent = Value::Dict(vec![
        (Value::String("extra".to_string()), Value::Int(9)),
        (Value::String("uid".to_string()), Value::Uint(77)),
    ]);
    let mut enc = Encoder::new(Vec::new());
    w.encode_value_body(&mut enc, &sent).unwrap();
    let mut dec = Decoder::new(enc.into_inner());
    assert_eq!(
        b.decode(&mut dec),
        Ok(vec![
            Value::Int(77),
            Value::String(String::new()),
            Value::String(String::new()),
            Value::Bool(false),
        ])
    );
    w.encode(&Value::Nil).unwrap();
}

#[test]
fn map_form_rejects_what_does_not_fit() {
    let b = Binding::new(None, Some("map[interface{}]interface{}"), user_fields()).unwrap();
    let w = gobx::writer::GobWriter::new(Vec::new());
    let sent = Value::Dict(vec![(Value::String("uname".to_string()), Value::Int(5))]);
    let mut enc = Encoder::new(Vec::new());
    w.encode_value_body(&mut enc, &sent).unwrap();
    let mut dec = Decoder::new(enc.into_inner());
    assert_eq!(b.decode(&mut dec), Err(GobError::TypeMismatch));

    let sent = Value::Dict(vec![(Value::String("uid".to_string()), Value::Uint(u64::MAX))]);
    let mut enc = Encoder::new(Vec::new());
    w.encode_value_body(&mut enc, &sent).unwrap();
    let mut dec = Decoder::new(enc.into_inner());
    assert_eq!(b.decode(&mut dec), Err(GobError::TypeMismatch));
}

#[test]
fn record_must_match_the_binding() {
    let b = Binding::new(None, None, user_fields()).unwrap();
    let mut enc = Encoder::new(Vec::new());
    assert_eq!(b.encode(&vec![Value::Int(1)], &mut enc), Err(GobError::TypeMismatch));
    let mut wrong = user_record();
    wrong[0] = Value::Uint(1);
    assert_eq!(b.encode(&wrong, &mut enc), Err(GobError::TypeMismatch));
    assert_eq!(enc.into_inner(), Vec::<u8>::new());
}

#[test]
fn type_ids_and_zero_values() {
    assert_eq!(Type::Bool.id(), 1);
    assert_eq!(Type::Interface.id(), 8);
    assert_eq!(Type::Float.zero(), Value::Float(0));
    assert_eq!(Type::Int.coerce(&Value::Uint(5)), Some(Value::Int(5)));
    assert_eq!(Type::String.coerce(&Value::Int(5)), None);
}
