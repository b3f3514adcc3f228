use bcs::{
    is_human_readable, serialize_into, serialize_into_with_limit, serialized_size,
    serialized_size_with_limit, to_bytes, to_bytes_with_limit, Error, MapSerializer, Serializer,
    Value, MAX_CONTAINER_DEPTH,
};

fn uleb128_of(v: u32) -> Vec<u8> {
    let mut s = Serializer::new(Vec::new(), 0);
    s.output_u32_as_uleb128(v);
    s.into_output()
}

#[test]
fn uleb128_edge_cases() {
    assert_eq!(uleb128_of(0), vec![0x00]);
    assert_eq!(uleb128_of(127), vec![0x7f]);
    assert_eq!(uleb128_of(128), vec![0x80, 0x01]);
    assert_eq!(uleb128_of(16384), vec![0x80, 0x80, 0x01]);
    assert_eq!(uleb128_of(0x7fff_ffff), vec![0xff, 0xff, 0xff, 0xff, 0x07]);
}

#[test]
fn service_struct_scenario() {
    let ip = Value::NewtypeStruct(Box::new(Value::Tuple(vec![
        Value::U8(192),
        Value::U8(168),
        Value::U8(1),
        Value::U8(1),
    ])));
    let port = Value::Sequence(vec![
        Value::NewtypeStruct(Box::new(Value::U16(8001))),
        Value::NewtypeStruct(Box::new(Value::U16(8002))),
        Value::NewtypeStruct(Box::new(Value::U16(8003))),
    ]);
    let service = Value::Struct(vec![
        ip,
        port,
        Value::Optional(Some(Box::new(Value::U32(5000)))),
        Value::Bool(false),
    ]);
    let expected = vec![
        0xc0, 0xa8, 0x01, 0x01, 0x03, 0x41, 0x1f, 0x42, 0x1f, 0x43, 0x1f, 0x01, 0x88, 0x13, 0x00,
        0x00, 0x00,
    ];
    assert_eq!(to_bytes(&service).unwrap(), expected);
}

#[test]
fn optional_scenarios() {
    assert_eq!(to_bytes(&Value::Optional(None)).unwrap(), vec![0x00]);
    let some = Value::Optional(Some(Box::new(Value::U16(0x0102))));
    assert_eq!(to_bytes(&some).unwrap(), vec![0x01, 0x02, 0x01]);
}

#[test]
fn map_canonical_order_scenario() {
    let m = Value::Mapping(vec![
        (Value::U8(2), Value::U8(20)),
        (Value::U8(1), Value::U8(10)),
        (Value::U8(3), Value::U8(30)),
    ]);
    let expected = vec![0x03, 0x01, 0x0a, 0x02, 0x14, 0x03, 0x1e];
    assert_eq!(to_bytes(&m).unwrap(), expected);
}

#[test]
fn map_insertion_order_irrelevant() {
    let orders: Vec<Vec<(u8, u8)>> = vec![
        vec![(2, 20), (1, 10), (3, 30)],
        vec![(1, 10), (2, 20), (3, 30)],
        vec![(3, 30), (2, 20), (1, 10)],
    ];
    let expected = vec![0x03, 0x01, 0x0a, 0x02, 0x14, 0x03, 0x1e];
    for order in orders {
        let entries: Vec<(Value, Value)> = order
            .into_iter()
            .map(|(k, v)| (Value::U8(k), Value::U8(v)))
            .collect();
        assert_eq!(to_bytes(&Value::Mapping(entries)).unwrap(), expected);
    }
}

#[test]
fn map_duplicate_keys_first_wins() {
    let m = Value::Mapping(vec![
        (Value::U8(1), Value::U8(10)),
        (Value::U8(1), Value::U8(99)),
    ]);
    assert_eq!(to_bytes(&m).unwrap(), vec![0x01, 0x01, 0x0a]);
}

#[test]
fn newtype_variant_scenario() {
    let v = Value::NewtypeVariant(2, Box::new(Value::U32(1)));
    assert_eq!(to_bytes(&v).unwrap(), vec![0x02, 0x01, 0x00, 0x00, 0x00]);
}

#[test]
fn byte_string_scenario() {
    let v = Value::Bytes(b"hi".to_vec());
    assert_eq!(to_bytes(&v).unwrap(), vec![0x02, 0x68, 0x69]);
}

#[test]
fn primitive_encodings() {
    assert_eq!(to_bytes(&Value::Bool(true)).unwrap(), vec![0x01]);
    assert_eq!(to_bytes(&Value::Bool(false)).unwrap(), vec![0x00]);
    assert_eq!(to_bytes(&Value::U8(0xab)).unwrap(), vec![0xab]);
    assert_eq!(to_bytes(&Value::U32(305419896)).unwrap(), vec![0x78, 0x56, 0x34, 0x12]);
    assert_eq!(
        to_bytes(&Value::U64(0x0102030405060708)).unwrap(),
        vec![0x08, 0x07, 0x06, 0x05, 0x04, 0x03, 0x02, 0x01]
    );
    let mut u128_expected = vec![0x01];
    u128_expected.extend(std::iter::repeat(0u8).take(15));
    assert_eq!(to_bytes(&Value::U128(1)).unwrap(), u128_expected);
    assert_eq!(to_bytes(&Value::I8(-1)).unwrap(), vec![0xff]);
    assert_eq!(to_bytes(&Value::I16(-2)).unwrap(), vec![0xfe, 0xff]);
    assert_eq!(to_bytes(&Value::I32(-2)).unwrap(), vec![0xfe, 0xff, 0xff, 0xff]);
    assert_eq!(
        to_bytes(&Value::I64(-1)).unwrap(),
        vec![0xff, 0xff, 0xff, 0xff, 0xff, 0xff, 0xff, 0xff]
    );
    let i128_expected = vec![0xff; 16];
    assert_eq!(to_bytes(&Value::I128(-1)).unwrap(), i128_expected);
}

#[test]
fn unit_and_variants() {
    assert_eq!(to_bytes(&Value::Unit).unwrap(), Vec::<u8>::new());
    assert_eq!(to_bytes(&Value::UnitStruct).unwrap(), Vec::<u8>::new());
    assert_eq!(to_bytes(&Value::UnitVariant(0)).unwrap(), vec![0x00]);
    assert_eq!(to_bytes(&Value::UnitVariant(7)).unwrap(), vec![0x07]);
    let tv = Value::TupleVariant(1, vec![Value::U8(5), Value::U8(6)]);
    assert_eq!(to_bytes(&tv).unwrap(), vec![0x01, 0x05, 0x06]);
    let sv = Value::StructVariant(3, vec![Value::Bool(true)]);
    assert_eq!(to_bytes(&sv).unwrap(), vec![0x03, 0x01]);
    let ts = Value::TupleStruct(vec![Value::U8(9), Value::U16(10)]);
    assert_eq!(to_bytes(&ts).unwrap(), vec![0x09, 0x0a, 0x00]);
}

#[test]
fn sequences_and_tuples() {
    let seq = Value::Sequence(vec![Value::U8(1), Value::U8(2), Value::U8(3)]);
    assert_eq!(to_bytes(&seq).unwrap(), vec![0x03, 0x01, 0x02, 0x03]);
    let empty = Value::Sequence(vec![]);
    assert_eq!(to_bytes(&empty).unwrap(), vec![0x00]);
    let tup = Value::Tuple(vec![Value::U8(1), Value::Bool(true)]);
    assert_eq!(to_bytes(&tup).unwrap(), vec![0x01, 0x01]);
}

#[test]
fn refuses_floats_and_chars() {
    assert_eq!(to_bytes(&Value::Float), Err(Error::NotSupported));
    assert_eq!(to_bytes(&Value::Char('a')), Err(Error::NotSupported));
    let nested = Value::Struct(vec![Value::U8(1), Value::Char('z')]);
    assert_eq!(to_bytes(&nested), Err(Error::NotSupported));
}

fn wrapper_chain(k: usize) -> Value {
    let mut v = Value::Unit;
    for _ in 0..k {
        v = Value::NewtypeStruct(Box::new(v));
    }
    v
}

#[test]
fn depth_limit_enforced() {
    assert_eq!(to_bytes_with_limit(&wrapper_chain(4), 4).unwrap(), Vec::<u8>::new());
    assert_eq!(
        to_bytes_with_limit(&wrapper_chain(5), 4),
        Err(Error::ExceededContainerDepthLimit)
    );
    assert_eq!(to_bytes(&wrapper_chain(MAX_CONTAINER_DEPTH)).unwrap(), Vec::<u8>::new());
    assert_eq!(
        to_bytes(&wrapper_chain(MAX_CONTAINER_DEPTH + 1)),
        Err(Error::ExceededContainerDepthLimit)
    );
}

#[test]
fn limit_above_default_refused() {
    let v = Value::U8(1);
    assert_eq!(
        to_bytes_with_limit(&v, MAX_CONTAINER_DEPTH + 1),
        Err(Error::NotSupported)
    );
    let mut out = Vec::new();
    assert_eq!(
        serialize_into_with_limit(&mut out, &v, MAX_CONTAINER_DEPTH + 1),
        Err(Error::NotSupported)
    );
    assert_eq!(
        serialized_size_with_limit(&v, MAX_CONTAINER_DEPTH + 1),
        Err(Error::NotSupported)
    );
    assert_eq!(serialized_size_with_limit(&v, 0).unwrap(), 1);
}

#[test]
fn map_state_machine_errors() {
    let mut ms = MapSerializer::new(Serializer::new(Vec::new(), 10));
    assert_eq!(ms.serialize_value(&Value::U8(1)), Err(Error::ExpectedMapKey));

    let mut ms = MapSerializer::new(Serializer::new(Vec::new(), 10));
    assert_eq!(ms.serialize_key(&Value::U8(1)), Ok(()));
    assert_eq!(ms.serialize_key(&Value::U8(2)), Err(Error::ExpectedMapValue));

    let mut ms = MapSerializer::new(Serializer::new(Vec::new(), 10));
    assert_eq!(ms.serialize_key(&Value::U8(1)), Ok(()));
    assert!(matches!(ms.end(), Err(Error::ExpectedMapValue)));
}

#[test]
fn map_end_emits_sorted_entries() {
    let mut ms = MapSerializer::new(Serializer::new(Vec::new(), 10));
    ms.serialize_key(&Value::U8(9)).unwrap();
    ms.serialize_value(&Value::U8(90)).unwrap();
    ms.serialize_key(&Value::U8(3)).unwrap();
    ms.serialize_value(&Value::U8(30)).unwrap();
    let done = ms.end().unwrap();
    assert_eq!(done.into_output(), vec![0x02, 0x03, 0x1e, 0x09, 0x5a]);
}

#[test]
fn serialized_size_matches_encoding() {
    let values = vec![
        Value::U8(7),
        Value::U64(1),
        Value::Bytes(b"hello".to_vec()),
        Value::Mapping(vec![(Value::U8(1), Value::U16(2))]),
        Value::Optional(Some(Box::new(Value::Bool(true)))),
    ];
    for v in &values {
        assert_eq!(serialized_size(v).unwrap(), to_bytes(v).unwrap().len());
    }
    assert_eq!(serialized_size(&Value::Float), Err(Error::NotSupported));
}

#[test]
fn encoding_is_deterministic() {
    let v = Value::Mapping(vec![
        (Value::Bytes(b"b".to_vec()), Value::U8(2)),
        (Value::Bytes(b"a".to_vec()), Value::U8(1)),
    ]);
    assert_eq!(to_bytes(&v).unwrap(), to_bytes(&v).unwrap());
}

#[test]
fn serialize_into_appends() {
    let mut out = vec![0xaa];
    serialize_into(&mut out, &Value::U8(0xbb)).unwrap();
    assert_eq!(out, vec![0xaa, 0xbb]);
}

#[test]
fn map_keys_sorted_by_encoded_bytes() {
    // Keys are ordered by their encoded bytes: the length prefix of the
    // shorter byte string sorts it first.
    let m = Value::Mapping(vec![
        (Value::Bytes(b"ab".to_vec()), Value::U8(2)),
        (Value::Bytes(b"a".to_vec()), Value::U8(1)),
    ]);
    assert_eq!(
        to_bytes(&m).unwrap(),
        vec![0x02, 0x01, 0x61, 0x01, 0x02, 0x61, 0x62, 0x02]
    );
}

#[test]
fn not_human_readable() {
    assert!(!is_human_readable());
}
