use abi_values::types::Type;
use abi_values::value::Value;
use abi_values::word::Uint256;
use ethereum_types::U256;

fn word(x: U256) -> Uint256 {
    Uint256 { limbs: x.0 }
}

fn uint(n: u64, size: usize) -> Value {
    Value::Uint(word(U256::from(n)), size)
}

fn sample_values() -> Vec<Value> {
    vec![
        Value::String("héllo, wörld".to_string()),
        uint(5, 32),
        Value::FixedArray(
            vec![
                Value::Array(vec![uint(1, 32), uint(2, 32)], Type::Uint(32)),
                Value::Array(vec![uint(3, 32)], Type::Uint(32)),
            ],
            Type::Array(Box::new(Type::Uint(32))),
        ),
        Value::Bytes((0u8..70).collect()),
        Value::Bool(true),
        Value::Address([7u8; 20]),
        Value::FixedBytes(vec![1, 2, 3]),
        Value::Int(word(U256::MAX), 256),
        Value::Array(
            vec![
                Value::FixedArray(vec![uint(8, 8), uint(9, 8)], Type::Uint(8)),
                Value::FixedArray(vec![uint(10, 8), uint(11, 8)], Type::Uint(8)),
            ],
            Type::FixedArray(Box::new(Type::Uint(8)), 2),
        ),
        Value::FixedArray(
            vec![Value::Bytes(vec![0xaa; 33]), Value::Bytes(vec![])],
            Type::Bytes,
        ),
    ]
}

#[test]
fn decode_of_encode_gives_back_values() {
    let values = sample_values();
    let types: Vec<Type> = values.iter().map(|v| v.type_of()).collect();
    let encoded = Value::encode(&values);
    assert_eq!(Value::decode_from_slice(&encoded, &types), Ok(values));
}

#[test]
fn decoded_values_have_requested_types() {
    let values = sample_values();
    let types: Vec<Type> = values.iter().map(|v| v.type_of()).collect();
    let encoded = Value::encode(&values);
    let decoded = Value::decode_from_slice(&encoded, &types).unwrap();
    assert_eq!(decoded.len(), types.len());
    for (v, t) in decoded.iter().zip(types.iter()) {
        assert_eq!(&v.type_of(), t);
    }
}

#[test]
fn encoding_is_made_of_words() {
    let values = sample_values();
    assert_eq!(Value::encode(&values).len() % 32, 0);
    assert_eq!(Value::encode(&vec![Value::Bytes(vec![1; 31])]).len(), 96);
    assert_eq!(Value::encode(&vec![Value::Bytes(vec![1; 32])]).len(), 96);
    assert_eq!(Value::encode(&vec![Value::Bytes(vec![1; 33])]).len(), 128);
}

#[test]
fn string_is_encoded_as_its_bytes() {
    let s = "ünïcödé".to_string();
    let as_string = Value::encode(&vec![uint(1, 8), Value::String(s.clone())]);
    let as_bytes = Value::encode(&vec![uint(1, 8), Value::Bytes(s.as_bytes().to_vec())]);
    assert_eq!(as_string, as_bytes);
}

#[test]
fn int_is_encoded_as_uint() {
    let x = word(U256::from(0x1234_5678u64));
    assert_eq!(
        Value::encode(&vec![Value::Int(x, 64), Value::Bool(false)]),
        Value::encode(&vec![Value::Uint(x, 64), Value::Bool(false)])
    );
}

#[test]
fn empty_sequences() {
    assert_eq!(Value::encode(&vec![]), Vec::<u8>::new());
    assert_eq!(Value::decode_from_slice(&[], &vec![]), Ok(vec![]));
}

#[test]
fn fixed_bytes_take_padded_words() {
    // 20 bytes take one word, 40 bytes take two.
    let mut bs = [0u8; 128];
    for i in 0..20 {
        bs[i] = i as u8 + 1;
    }
    bs[63] = 9;
    let v = Value::decode_from_slice(&bs, &vec![Type::FixedBytes(20), Type::Uint(8)]);
    assert_eq!(
        v,
        Ok(vec![Value::FixedBytes(bs[0..20].to_vec()), uint(9, 8)])
    );

    let mut bs = [0u8; 96];
    bs[95] = 4;
    let v = Value::decode_from_slice(&bs, &vec![Type::FixedBytes(40), Type::Uint(8)]);
    assert_eq!(v, Ok(vec![Value::FixedBytes(vec![0; 40]), uint(4, 8)]));

    let mut bs = [0u8; 64];
    bs[63] = 4;
    let v = Value::decode_from_slice(&bs, &vec![Type::FixedBytes(32), Type::Uint(8)]);
    assert_eq!(v, Ok(vec![Value::FixedBytes(vec![0; 32]), uint(4, 8)]));
}

#[test]
fn bool_is_true_only_for_one() {
    let mut bs = [0u8; 32];
    bs[31] = 2;
    assert_eq!(
        Value::decode_from_slice(&bs, &vec![Type::Bool]),
        Ok(vec![Value::Bool(false)])
    );
    bs[31] = 1;
    bs[0] = 1;
    assert_eq!(
        Value::decode_from_slice(&bs, &vec![Type::Bool]),
        Ok(vec![Value::Bool(false)])
    );
}

#[test]
fn invalid_utf8_string_is_an_error() {
    let mut bs = [0u8; 96];
    bs[31] = 0x20;
    bs[63] = 2;
    bs[64] = 0xff;
    bs[65] = 0xfe;
    assert_eq!(
        Value::decode_from_slice(&bs, &vec![Type::String]),
        Err(String::from_utf8(vec![0xff, 0xfe]).unwrap_err().to_string())
    );
    // The same bytes are a valid byte string.
    assert_eq!(
        Value::decode_from_slice(&bs, &vec![Type::Bytes]),
        Ok(vec![Value::Bytes(vec![0xff, 0xfe])])
    );
}

#[test]
fn offsets_and_lengths_are_big_endian_words() {
    let encoded = Value::encode(&vec![Value::Bytes(vec![0x11; 300]), uint(7, 16)]);
    // head: offset 64, then the integer
    assert_eq!(encoded[31], 64);
    assert!(encoded[0..31].iter().all(|b| *b == 0));
    assert_eq!(encoded[63], 7);
    // tail: length 300 = 0x012c
    assert_eq!(encoded[94], 0x01);
    assert_eq!(encoded[95], 0x2c);
    assert_eq!(encoded.len(), 64 + 32 + 320);
}

#[test]
fn large_words_decode_to_their_limbs() {
    let x = U256::from_dec_str("123456789012345678901234567890123456789012345678901234567890").unwrap();
    let mut bs = [0u8; 32];
    x.to_big_endian(&mut bs);
    assert_eq!(
        Value::decode_from_slice(&bs, &vec![Type::Uint(256)]),
        Ok(vec![Value::Uint(word(x), 256)])
    );
    assert_eq!(Value::encode(&vec![Value::Uint(word(x), 256)]), bs.to_vec());
}

#[test]
fn type_of_values() {
    assert_eq!(uint(1, 8).type_of(), Type::Uint(8));
    assert_eq!(Value::FixedBytes(vec![0; 5]).type_of(), Type::FixedBytes(5));
    assert_eq!(
        Value::FixedArray(vec![Value::Bool(true), Value::Bool(false)], Type::Bool).type_of(),
        Type::FixedArray(Box::new(Type::Bool), 2)
    );
    assert_eq!(
        Value::Array(vec![], Type::String).type_of(),
        Type::Array(Box::new(Type::String))
    );
    assert_eq!(Value::String(String::new()).type_of(), Type::String);
}

#[test]
fn dynamic_types() {
    assert!(Type::Bytes.is_dynamic());
    assert!(Type::String.is_dynamic());
    assert!(Type::Array(Box::new(Type::Bool)).is_dynamic());
    assert!(!Type::FixedArray(Box::new(Type::Bool), 3).is_dynamic());
    assert!(Type::FixedArray(Box::new(Type::String), 3).is_dynamic());
    assert!(!Type::Tuple(vec![Type::Bool, Type::Address]).is_dynamic());
    assert!(Type::Tuple(vec![Type::Bool, Type::Bytes]).is_dynamic());
}

#[test]
fn clones_are_equal() {
    let values = sample_values();
    for v in values.iter() {
        assert_eq!(&v.clone(), v);
    }
    let t = Type::Tuple(vec![Type::Array(Box::new(Type::Int(8))), Type::Address]);
    assert_eq!(t.clone(), t);
}

#[test]
fn invalid_utf8_error_text() {
    let mut bs = [0u8; 96];
    bs[31] = 0x20;
    bs[63] = 1;
    bs[64] = 0xff;
    assert_eq!(
        Value::decode_from_slice(&bs, &vec![Type::String]),
        Err(String::from_utf8(vec![0xff]).unwrap_err().to_string())
    );
    // an incomplete sequence gives a different text
    bs[63] = 2;
    bs[64] = b'a';
    bs[65] = 0xc3;
    assert_eq!(
        Value::decode_from_slice(&bs, &vec![Type::String]),
        Err(String::from_utf8(vec![b'a', 0xc3]).unwrap_err().to_string())
    );
}

#[test]
fn nested_strings_are_encoded_as_their_bytes() {
    let s1 = "ä".to_string();
    let s2 = "a longer string of more than thirty-two bytes".to_string();
    let with_strings = vec![
        uint(3, 8),
        Value::FixedArray(
            vec![Value::String(s1.clone()), Value::String(s2.clone())],
            Type::String,
        ),
        Value::Array(vec![Value::String(s2.clone())], Type::String),
    ];
    let with_bytes = vec![
        uint(3, 8),
        Value::FixedArray(
            vec![
                Value::Bytes(s1.as_bytes().to_vec()),
                Value::Bytes(s2.as_bytes().to_vec()),
            ],
            Type::String,
        ),
        Value::Array(vec![Value::Bytes(s2.as_bytes().to_vec())], Type::String),
    ];
    assert_eq!(Value::encode(&with_strings), Value::encode(&with_bytes));
}

#[test]
fn static_values_encode_as_concatenation() {
    let a = vec![uint(1, 8), Value::Bool(true)];
    let b = vec![
        Value::Address([3u8; 20]),
        Value::FixedArray(vec![uint(4, 8), uint(5, 8)], Type::Uint(8)),
    ];
    let ab: Vec<Value> = a.iter().chain(b.iter()).cloned().collect();
    let mut expected = Value::encode(&a);
    expected.extend(Value::encode(&b));
    assert_eq!(Value::encode(&ab), expected);

    let xs = vec![uint(6, 8), uint(7, 8)];
    assert_eq!(
        Value::encode(&vec![Value::FixedArray(xs.clone(), Type::Uint(8))]),
        Value::encode(&xs)
    );
}

#[test]
fn encoding_length_formula() {
    // heads: 32 (string offset) + 64 (static fixed array) + 32 (array offset)
    // tails: 32 + 32 (string "abc") + 32 + 2 * 32 (array of two integers)
    let values = vec![
        Value::String("abc".to_string()),
        Value::FixedArray(vec![uint(1, 8), uint(2, 8)], Type::Uint(8)),
        Value::Array(vec![uint(3, 8), uint(4, 8)], Type::Uint(8)),
    ];
    assert_eq!(Value::encode(&values).len(), 32 + 64 + 32 + 64 + 96);
}

#[test]
fn static_fixed_arrays_take_their_size() {
    // three fixed byte strings of 20 bytes take 3 * 32 bytes
    let mut bs = [0u8; 128];
    bs[0] = 1;
    bs[32] = 2;
    bs[64] = 3;
    bs[127] = 9;
    let ty = Type::FixedArray(Box::new(Type::FixedBytes(20)), 3);
    let mut b1 = vec![0u8; 20];
    b1[0] = 1;
    let mut b2 = vec![0u8; 20];
    b2[0] = 2;
    let mut b3 = vec![0u8; 20];
    b3[0] = 3;
    assert_eq!(
        Value::decode_from_slice(&bs, &vec![ty, Type::Uint(8)]),
        Ok(vec![
            Value::FixedArray(
                vec![Value::FixedBytes(b1), Value::FixedBytes(b2), Value::FixedBytes(b3)],
                Type::FixedBytes(20)
            ),
            uint(9, 8)
        ])
    );
}

#[test]
fn array_elements_follow_the_length_word() {
    // offset 32, length 2, then two addresses right-aligned in their words
    let mut bs = [0u8; 128];
    bs[31] = 0x20;
    bs[63] = 2;
    for i in 76..96 {
        bs[i] = 0xaa;
    }
    for i in 108..128 {
        bs[i] = 0xbb;
    }
    assert_eq!(
        Value::decode_from_slice(&bs, &vec![Type::Array(Box::new(Type::Address))]),
        Ok(vec![Value::Array(
            vec![Value::Address([0xaa; 20]), Value::Address([0xbb; 20])],
            Type::Address
        )])
    );
}
