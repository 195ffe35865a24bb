//! Wire-format tests: exact encodings per the tag table, round trips,
//! and the classified errors on malformed input.
use gom_bridge::codec::{CdcEncoder, DecodeError};
use gom_bridge::value::{
    Array, CdcError, CdcValue, Command, Indexable, Item, Package, Slice, Trait, Vec2d, Vec3d,
};

fn le64(x: u64) -> Vec<u8> {
    x.to_le_bytes().to_vec()
}

fn string_bytes(s: &str) -> Vec<u8> {
    let mut out = le64(s.len() as u64);
    out.extend_from_slice(s.as_bytes());
    out
}

fn i64_bytes(i: i64) -> Vec<u8> {
    (i as u64).to_le_bytes().to_vec()
}

#[test]
fn test_none_encoding_matches_python() {
    let mut encoder = CdcEncoder::new();
    let value = CdcValue::NONE;
    let encoded = encoder.encode(value);
    let expected = vec![0u8];
    assert_eq!(encoded, expected);
}

#[test]
fn test_bool_encoding_matches_python() {
    let mut encoder = CdcEncoder::new();
    let value = CdcValue::BOOL(true);
    let encoded = encoder.encode(value);
    let expected = vec![1u8, 1u8];
    assert_eq!(encoded, expected);
}

#[test]
fn test_integer_encoding_matches_python() {
    let mut encoder = CdcEncoder::new();
    let value = CdcValue::INTEGER(42);
    let encoded = encoder.encode(value);
    let mut expected = vec![2u8];
    expected.extend_from_slice(&[0x2A, 0, 0, 0, 0, 0, 0, 0]);
    assert_eq!(encoded, expected);
}

#[test]
fn test_float_encoding_matches_python() {
    let mut encoder = CdcEncoder::new();
    let value = CdcValue::FLOAT(3.14f64.to_bits());
    let encoded = encoder.encode(value);
    let mut expected = vec![3u8];
    expected.extend_from_slice(&3.14f64.to_le_bytes());
    assert_eq!(encoded, expected);
}

#[test]
fn test_string_encoding_matches_python() {
    let mut encoder = CdcEncoder::new();
    let value = CdcValue::STRING("hello world".to_string());
    let encoded = encoder.encode(value);
    let mut expected = vec![4u8];
    expected.extend(string_bytes("hello world"));
    assert_eq!(encoded, expected);
}

#[test]
fn test_list_encoding_matches_python() {
    let mut encoder = CdcEncoder::new();
    let value = CdcValue::LIST(vec![
        CdcValue::INTEGER(1),
        CdcValue::INTEGER(2),
        CdcValue::INTEGER(3),
        CdcValue::STRING("test".to_string()),
    ]);
    let encoded = encoder.encode(value);
    let mut expected = vec![5u8];
    expected.extend(le64(4));
    for i in 1..=3i64 {
        expected.push(2u8);
        expected.extend(i64_bytes(i));
    }
    expected.push(4u8);
    expected.extend(string_bytes("test"));
    assert_eq!(encoded, expected);
}

#[test]
fn test_slice_encoding_matches_python() {
    let mut encoder = CdcEncoder::new();
    let slice = Slice { start: Some(1), stop: Some(10) };
    let value = CdcValue::SLICE(slice);
    let encoded = encoder.encode(value);
    let mut expected = vec![7u8, 2u8];
    expected.extend(i64_bytes(1));
    expected.push(2u8);
    expected.extend(i64_bytes(10));
    assert_eq!(encoded, expected);
}

#[test]
fn test_slice_encoding_roundtrip() {
    let mut encoder = CdcEncoder::new();
    let original_slice = Slice { start: Some(2), stop: Some(20) };
    let value = CdcValue::SLICE(original_slice.clone());
    let encoded = encoder.encode(value);

    let decoded = encoder.decode_value(&encoded, 0).unwrap().0;

    if let CdcValue::SLICE(decoded_slice) = decoded {
        assert_eq!(decoded_slice.start, original_slice.start);
        assert_eq!(decoded_slice.stop, original_slice.stop);
    } else {
        panic!("Expected SLICE, found {:?}", decoded);
    }
}

#[test]
fn test_indexable_encoding_matches_python() {
    let mut encoder = CdcEncoder::new();
    let indexable = Indexable {
        item: Item { id: "item123".to_string(), category: 42, stage: 7 },
        token: "test_token".to_string(),
        size: 100,
    };
    let value = CdcValue::INDEXABLE(indexable);
    let encoded = encoder.encode(value);
    let mut expected = vec![9u8, 8u8];
    expected.extend(string_bytes("item123"));
    expected.extend(i64_bytes(42));
    expected.extend(i64_bytes(7));
    expected.extend(string_bytes("test_token"));
    expected.extend(i64_bytes(100));
    assert_eq!(encoded, expected);
}

#[test]
fn test_indexable_encoding_roundtrip() {
    let mut encoder = CdcEncoder::new();
    let original_indexable = Indexable {
        item: Item { id: "test_item".to_string(), category: 99, stage: 3 },
        token: "roundtrip_token".to_string(),
        size: 250,
    };
    let value = CdcValue::INDEXABLE(original_indexable.clone());
    let encoded = encoder.encode(value);

    let decoded = encoder.decode_value(&encoded, 0).unwrap().0;

    if let CdcValue::INDEXABLE(decoded_indexable) = decoded {
        assert_eq!(decoded_indexable.item, original_indexable.item);
        assert_eq!(decoded_indexable.token, original_indexable.token);
        assert_eq!(decoded_indexable.size, original_indexable.size);
    } else {
        panic!("Expected INDEXABLE, found {:?}", decoded);
    }
}

#[test]
fn test_vec2d_encoding_matches_python() {
    let mut encoder = CdcEncoder::new();
    let value = CdcValue::VEC2D(Vec2d { x: 1.5f64.to_bits(), y: 2.5f64.to_bits() });
    let encoded = encoder.encode(value);
    let mut expected = vec![17u8];
    expected.extend_from_slice(&1.5f64.to_le_bytes());
    expected.extend_from_slice(&2.5f64.to_le_bytes());
    assert_eq!(encoded, expected);
}

#[test]
fn test_vec3d_encoding_matches_python() {
    let mut encoder = CdcEncoder::new();
    let value = CdcValue::VEC3D(Vec3d {
        x: 1.1f64.to_bits(),
        y: 2.2f64.to_bits(),
        z: 3.3f64.to_bits(),
    });
    let encoded = encoder.encode(value);
    let mut expected = vec![18u8];
    expected.extend_from_slice(&1.1f64.to_le_bytes());
    expected.extend_from_slice(&2.2f64.to_le_bytes());
    expected.extend_from_slice(&3.3f64.to_le_bytes());
    assert_eq!(encoded, expected);
}

#[test]
fn test_command_encoding_matches_python() {
    let mut encoder = CdcEncoder::new();
    let value = CdcValue::COMMAND(Command { name: "example_command".to_string() });
    let encoded = encoder.encode(value);
    let mut expected = vec![10u8];
    expected.extend(string_bytes("example_command"));
    assert_eq!(encoded, expected);
}

#[test]
fn test_blob_encoding_matches_python() {
    let mut encoder = CdcEncoder::new();
    let value = CdcValue::BLOB(b"binary data example".to_vec());
    let encoded = encoder.encode(value);
    let mut expected = vec![20u8];
    expected.extend(le64(19));
    expected.extend_from_slice(b"binary data example");
    assert_eq!(encoded, expected);
}

#[test]
fn test_item_encoding_matches_python() {
    let mut encoder = CdcEncoder::new();
    let value = CdcValue::ITEM(Item { id: "item123".to_string(), category: 42, stage: 7 });
    let encoded = encoder.encode(value);
    let mut expected = vec![8u8];
    expected.extend(string_bytes("item123"));
    expected.extend(i64_bytes(42));
    expected.extend(i64_bytes(7));
    assert_eq!(encoded, expected);

    let decoded = encoder.decode_value(&encoded, 0).unwrap().0;
    let again = CdcValue::ITEM(Item { id: "item123".to_string(), category: 42, stage: 7 });
    assert_eq!(decoded, again);
}

#[test]
fn test_resource_access_encoding_matches_python() {
    let mut encoder = CdcEncoder::new();
    let value = CdcValue::RESOURCE_ACCESS;
    let encoded = encoder.encode(value);
    let expected = vec![19u8];
    assert_eq!(encoded, expected);
}

#[test]
fn test_resource_access_encoding_roundtrip() {
    let mut encoder = CdcEncoder::new();
    let value = CdcValue::RESOURCE_ACCESS;
    let encoded = encoder.encode(value);

    let decoded = encoder.decode_value(&encoded, 0).unwrap().0;

    assert_eq!(decoded, CdcValue::RESOURCE_ACCESS);
}

#[test]
fn test_error_encoding_matches_python() {
    let mut encoder = CdcEncoder::new();
    let error = CdcError {
        id: "error_id_123".to_string(),
        text: "An error occurred".to_string(),
        line: 42,
    };
    let value = CdcValue::ERROR(error);
    let encoded = encoder.encode(value);
    let mut expected = vec![12u8];
    expected.extend(string_bytes("error_id_123"));
    expected.extend(string_bytes("An error occurred"));
    expected.extend(i64_bytes(42));
    assert_eq!(encoded, expected);
}

#[test]
fn test_error_encoding_roundtrip() {
    let mut encoder = CdcEncoder::new();
    let original_error = CdcError {
        id: "test_error_id".to_string(),
        text: "Test error message".to_string(),
        line: 99,
    };
    let value = CdcValue::ERROR(original_error.clone());
    let encoded = encoder.encode(value);

    let decoded = encoder.decode_value(&encoded, 0).unwrap().0;

    if let CdcValue::ERROR(decoded_error) = decoded {
        assert_eq!(decoded_error.id, original_error.id);
        assert_eq!(decoded_error.text, original_error.text);
        assert_eq!(decoded_error.line, original_error.line);
    } else {
        panic!("Expected ERROR, found {:?}", decoded);
    }
}

fn sample_trait() -> CdcValue {
    CdcValue::TRAIT(Trait {
        id: "Tom::Test::SimpleType".to_string(),
        args: vec![
            CdcValue::INTEGER(1),
            CdcValue::INTEGER(2),
            CdcValue::STRING("test".to_string()),
        ],
        kwargs: vec![
            ("key".to_string(), CdcValue::STRING("value".to_string())),
            ("num".to_string(), CdcValue::INTEGER(42)),
        ],
    })
}

#[test]
fn test_trait_encoding_roundtrip() {
    let mut encoder = CdcEncoder::new();
    let encoded = encoder.encode(sample_trait());

    let decoded = encoder.decode_value(&encoded, 0).unwrap().0;

    assert_eq!(decoded, sample_trait());
}

#[test]
fn tag_opens_every_encoding() {
    let mut encoder = CdcEncoder::new();
    let samples: Vec<(CdcValue, u8)> = vec![
        (CdcValue::NONE, 0),
        (CdcValue::BOOL(false), 1),
        (CdcValue::INTEGER(-5), 2),
        (CdcValue::FLOAT(0.5f64.to_bits()), 3),
        (CdcValue::STRING("x".to_string()), 4),
        (CdcValue::LIST(vec![]), 5),
        (CdcValue::MAP(vec![]), 6),
        (CdcValue::SLICE(Slice { start: None, stop: None }), 7),
        (CdcValue::ITEM(Item { id: "i".to_string(), category: 0, stage: -1 }), 8),
        (
            CdcValue::INDEXABLE(Indexable {
                item: Item { id: "i".to_string(), category: 0, stage: -1 },
                token: "t".to_string(),
                size: 0,
            }),
            9,
        ),
        (CdcValue::COMMAND(Command { name: "c".to_string() }), 10),
        (CdcValue::CALLABLE(7), 11),
        (CdcValue::ERROR(CdcError { id: "e".to_string(), text: "t".to_string(), line: 0 }), 12),
        (
            CdcValue::TRAIT(Trait { id: "t".to_string(), args: vec![], kwargs: vec![] }),
            13,
        ),
        (
            CdcValue::ARRAY(Array {
                project: Box::new(CdcValue::NONE),
                item: Box::new(CdcValue::NONE),
                key: "k".to_string(),
                index: vec![1, 2],
                selected: true,
                transformation: None,
            }),
            15,
        ),
        (
            CdcValue::PACKAGE(Package { reference: "r".to_string(), metadata: vec![] }),
            16,
        ),
        (CdcValue::VEC2D(Vec2d { x: 0, y: 0 }), 17),
        (CdcValue::VEC3D(Vec3d { x: 0, y: 0, z: 0 }), 18),
        (CdcValue::RESOURCE_ACCESS, 19),
        (CdcValue::BLOB(vec![1, 2, 3]), 20),
    ];
    for (value, tag) in samples {
        assert_eq!(value.discriminant(), tag);
        let encoded = encoder.encode(value);
        assert_eq!(encoded[0], tag);
    }
}

fn sample_nested() -> CdcValue {
    CdcValue::LIST(vec![
        CdcValue::MAP(vec![
            ("alpha".to_string(), CdcValue::INTEGER(1)),
            ("beta".to_string(), CdcValue::LIST(vec![CdcValue::BOOL(true), CdcValue::NONE])),
        ]),
        CdcValue::OBJECT(gom_bridge::value::Object {
            type_id: "Ty".to_string(),
            repr: "Ty()".to_string(),
            attributes: vec![("a".to_string(), CdcValue::BLOB(vec![9, 8]))],
        }),
        CdcValue::ARRAY(Array {
            project: Box::new(CdcValue::NONE),
            item: Box::new(CdcValue::ITEM(Item {
                id: "it".to_string(),
                category: 3,
                stage: 1,
            })),
            key: "data".to_string(),
            index: vec![4, 5, 6],
            selected: false,
            transformation: Some(Box::new(CdcValue::VEC2D(Vec2d { x: 1, y: 2 }))),
        }),
    ])
}

#[test]
fn nested_value_round_trips() {
    let mut encoder = CdcEncoder::new();
    let encoded = encoder.encode(sample_nested());
    let (decoded, end) = encoder.decode_value(&encoded, 0).unwrap();
    assert_eq!(end, encoded.len());
    assert_eq!(decoded, sample_nested());
}

#[test]
fn map_round_trips_keys_and_values() {
    let mut encoder = CdcEncoder::new();
    let value = CdcValue::MAP(vec![
        ("key1".to_string(), CdcValue::STRING("value1".to_string())),
        ("key2".to_string(), CdcValue::INTEGER(42)),
        (
            "key3".to_string(),
            CdcValue::LIST(vec![CdcValue::INTEGER(1), CdcValue::INTEGER(2)]),
        ),
    ]);
    let encoded = encoder.encode(value);
    let decoded = encoder.decode_value(&encoded, 0).unwrap().0;
    let pairs = match decoded {
        CdcValue::MAP(ps) => ps,
        other => panic!("Expected MAP, found {:?}", other),
    };
    assert_eq!(pairs.len(), 3);
    assert_eq!(pairs[0].0, "key1");
    assert_eq!(pairs[0].1, CdcValue::STRING("value1".to_string()));
    assert_eq!(pairs[1].0, "key2");
    assert_eq!(pairs[1].1, CdcValue::INTEGER(42));
    assert_eq!(pairs[2].0, "key3");
    assert_eq!(
        pairs[2].1,
        CdcValue::LIST(vec![CdcValue::INTEGER(1), CdcValue::INTEGER(2)])
    );
}

#[test]
fn callable_round_trips_within_one_encoder() {
    let mut encoder = CdcEncoder::new();
    let encoded = encoder.encode(CdcValue::CALLABLE(7001));
    let (decoded, end) = encoder.decode_value(&encoded, 0).unwrap();
    assert_eq!(end, encoded.len());
    assert_eq!(decoded, CdcValue::CALLABLE(7001));
}

#[test]
fn callable_without_registration_is_missing_function() {
    let mut encoder = CdcEncoder::new();
    let encoded = encoder.encode(CdcValue::CALLABLE(4242));
    let fresh = CdcEncoder::new();
    assert_eq!(fresh.decode_value(&encoded, 0), Err(DecodeError::MissingFunction));
}

#[test]
fn every_truncation_is_missing_data() {
    let mut encoder = CdcEncoder::new();
    let samples = vec![
        encoder.encode(sample_nested()),
        encoder.encode(sample_trait()),
        encoder.encode(CdcValue::CALLABLE(90)),
        encoder.encode(CdcValue::STRING("hello world".to_string())),
        encoder.encode(CdcValue::VEC3D(Vec3d { x: 1, y: 2, z: 3 })),
    ];
    for encoded in samples {
        for n in 0..encoded.len() {
            let cut = &encoded[..n];
            assert_eq!(
                encoder.decode_value(cut, 0),
                Err(DecodeError::MissingData),
                "truncation at {} of {}",
                n,
                encoded.len()
            );
        }
    }
}

#[test]
fn unknown_discriminant_is_unknown_type() {
    let encoder = CdcEncoder::new();
    for tag in 21..=255u8 {
        let data = [tag];
        assert_eq!(encoder.decode_value(&data, 0), Err(DecodeError::UnknownType));
    }
}

#[test]
fn slice_slot_must_be_none_or_integer() {
    let mut encoder = CdcEncoder::new();
    // a slice whose start slot holds a boolean
    let mut data = vec![7u8];
    data.extend(encoder.encode(CdcValue::BOOL(true)));
    data.extend(encoder.encode(CdcValue::NONE));
    assert_eq!(encoder.decode_value(&data, 0), Err(DecodeError::UnknownType));
    // a slice whose stop slot holds a string
    let mut data2 = vec![7u8];
    data2.extend(encoder.encode(CdcValue::INTEGER(1)));
    data2.extend(encoder.encode(CdcValue::STRING("no".to_string())));
    assert_eq!(encoder.decode_value(&data2, 0), Err(DecodeError::UnknownType));
}

#[test]
fn indexable_first_slot_must_be_item() {
    let mut encoder = CdcEncoder::new();
    let mut data = vec![9u8];
    data.extend(encoder.encode(CdcValue::INTEGER(5)));
    data.extend(string_bytes("token"));
    data.extend(i64_bytes(3));
    assert_eq!(encoder.decode_value(&data, 0), Err(DecodeError::UnknownType));
}

#[test]
fn decode_leaves_the_remainder() {
    let mut encoder = CdcEncoder::new();
    let mut data = encoder.encode(CdcValue::INTEGER(1));
    let second = encoder.encode(CdcValue::STRING("after".to_string()));
    data.extend(second.iter().copied());
    let (first, end) = encoder.decode_value(&data, 0).unwrap();
    assert_eq!(first, CdcValue::INTEGER(1));
    let (next, end2) = encoder.decode_value(&data, end).unwrap();
    assert_eq!(next, CdcValue::STRING("after".to_string()));
    assert_eq!(end2, data.len());
}

#[test]
fn decode_error_messages() {
    assert_eq!(
        DecodeError::MissingData.message(),
        "The bytes buffer ended unexpectedly while trying to decode a value"
    );
    assert_eq!(
        DecodeError::UnknownType.message(),
        "Unknown type discriminant encountered during decoding"
    );
    assert_eq!(
        DecodeError::MissingFunction.message(),
        "Function pointer not found in registered callables"
    );
}
