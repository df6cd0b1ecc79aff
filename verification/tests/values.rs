use abi_values::types::Type;
use abi_values::value::Value;
use abi_values::word::Uint256;
use ethereum_types::{H160, U256};
use rand::Rng;

fn word(x: U256) -> Uint256 {
    Uint256 { limbs: x.0 }
}

#[test]
fn decode_uint() {
    let uint: U256 = U256::exp10(18) + 1;

    let mut bs = [0u8; 32];
    uint.to_big_endian(&mut bs[..]);

    let v = Value::decode_from_slice(&bs, &vec![Type::Uint(256)]);

    assert_eq!(v, Ok(vec![Value::Uint(word(uint), 256)]));
}

#[test]
fn decode_int() {
    let uint: U256 = U256::exp10(18) + 1;

    let mut bs = [0u8; 32];
    uint.to_big_endian(&mut bs[..]);

    let v = Value::decode_from_slice(&bs, &vec![Type::Int(256)]);

    assert_eq!(v, Ok(vec![Value::Int(word(uint), 256)]));
}

#[test]
fn decode_address() {
    let addr = H160::random();

    let mut bs = [0u8; 32];
    bs[12..32].copy_from_slice(addr.as_bytes());

    let v = Value::decode_from_slice(&bs, &vec![Type::Address]);

    assert_eq!(v, Ok(vec![Value::Address(addr.0)]));
}

#[test]
fn decode_bool() {
    let mut bs = [0u8; 32];
    bs[31] = 1;

    let v = Value::decode_from_slice(&bs, &vec![Type::Bool]);

    assert_eq!(v, Ok(vec![Value::Bool(true)]));
}

#[test]
fn decode_fixed_bytes() {
    let mut bs = [0u8; 32];
    for i in 1..16 {
        bs[i] = i as u8;
    }

    let v = Value::decode_from_slice(&bs, &vec![Type::FixedBytes(16)]);

    assert_eq!(v, Ok(vec![Value::FixedBytes(bs[0..16].to_vec())]));
}

#[test]
fn decode_fixed_array() {
    let mut bs = [0u8; 128];

    // encode some data
    let uint1 = U256::from(5);
    let uint2 = U256::from(6);
    let uint3 = U256::from(7);
    let uint4 = U256::from(8);

    uint1.to_big_endian(&mut bs[0..32]);
    uint2.to_big_endian(&mut bs[32..64]);
    uint3.to_big_endian(&mut bs[64..96]);
    uint4.to_big_endian(&mut bs[96..128]);

    let uint_arr2 = Type::FixedArray(Box::new(Type::Uint(256)), 2);

    let v = Value::decode_from_slice(&bs, &vec![Type::FixedArray(Box::new(uint_arr2.clone()), 2)]);

    assert_eq!(
        v,
        Ok(vec![Value::FixedArray(
            vec![
                Value::FixedArray(
                    vec![Value::Uint(word(uint1), 256), Value::Uint(word(uint2), 256)],
                    Type::Uint(256)
                ),
                Value::FixedArray(
                    vec![Value::Uint(word(uint3), 256), Value::Uint(word(uint4), 256)],
                    Type::Uint(256)
                )
            ],
            uint_arr2
        )])
    );
}

#[test]
fn decode_string() {
    let mut rng = rand::thread_rng();

    let mut bs = [0u8; 128];

    bs[31] = 0x20; // big-endian string offset

    let str_len: usize = rng.gen_range(0..64);
    bs[63] = str_len as u8; // big-endian string size

    let chars = "abcdef0123456789".as_bytes();

    for i in 0..(str_len as usize) {
        bs[64 + i] = chars[rng.gen_range(0..chars.len())];
    }

    let v = Value::decode_from_slice(&bs, &vec![Type::String]);

    let expected_str = String::from_utf8(bs[64..(64 + str_len)].to_vec()).unwrap();
    assert_eq!(v, Ok(vec![Value::String(expected_str)]));
}

#[test]
fn decode_bytes() {
    let mut rng = rand::thread_rng();

    let mut bs = [0u8; 128];
    bs[31] = 0x20; // big-endian bytes offset

    let bytes_len: usize = rng.gen_range(0..64);
    bs[63] = bytes_len as u8; // big-endian bytes length

    for i in 0..(bytes_len as usize) {
        bs[64 + i] = rng.gen();
    }

    let v = Value::decode_from_slice(&bs, &vec![Type::Bytes]);

    assert_eq!(v, Ok(vec![Value::Bytes(bs[64..(64 + bytes_len)].to_vec())]));
}

#[test]
fn decode_array() {
    let mut bs = [0u8; 192];
    bs[31] = 0x20; // big-endian array offset
    bs[63] = 2; // big-endian array length

    // encode some data
    let uint1 = U256::from(5);
    let uint2 = U256::from(6);
    let uint3 = U256::from(7);
    let uint4 = U256::from(8);

    uint1.to_big_endian(&mut bs[64..96]);
    uint2.to_big_endian(&mut bs[96..128]);
    uint3.to_big_endian(&mut bs[128..160]);
    uint4.to_big_endian(&mut bs[160..192]);

    let uint_arr2 = Type::FixedArray(Box::new(Type::Uint(256)), 2);

    let v = Value::decode_from_slice(&bs, &vec![Type::Array(Box::new(uint_arr2.clone()))]);

    assert_eq!(
        v,
        Ok(vec![Value::Array(
            vec![
                Value::FixedArray(
                    vec![Value::Uint(word(uint1), 256), Value::Uint(word(uint2), 256)],
                    Type::Uint(256)
                ),
                Value::FixedArray(
                    vec![Value::Uint(word(uint3), 256), Value::Uint(word(uint4), 256)],
                    Type::Uint(256)
                )
            ],
            uint_arr2
        )])
    );
}

#[test]
fn decode_many() {
    // function f(string memory x, uint32 y, uint32[][2] memory z)
    let tys = vec![
        Type::String,
        Type::Uint(32),
        Type::FixedArray(Box::new(Type::Array(Box::new(Type::Uint(32)))), 2),
    ];

    // f("abc", 5, [[1, 2], [3]])
    let input = "0000000000000000000000000000000000000000000000000000000000000060000000000000000000000000000000000000000000000000000000000000000500000000000000000000000000000000000000000000000000000000000000a000000000000000000000000000000000000000000000000000000000000000036162630000000000000000000000000000000000000000000000000000000000000000000000000000000000000000000000000000000000000000000000004000000000000000000000000000000000000000000000000000000000000000a000000000000000000000000000000000000000000000000000000000000000020000000000000000000000000000000000000000000000000000000000000001000000000000000000000000000000000000000000000000000000000000000200000000000000000000000000000000000000000000000000000000000000010000000000000000000000000000000000000000000000000000000000000003";
    let mut bs = [0u8; 384];
    hex::decode_to_slice(input, &mut bs).unwrap();

    let v = Value::decode_from_slice(&bs, &tys);
    println!("{:?}", v);

    assert_eq!(
        v,
        Ok(vec![
            Value::String("abc".to_string()),
            Value::Uint(word(U256::from(5)), 32),
            Value::FixedArray(
                vec![
                    Value::Array(
                        vec![
                            Value::Uint(word(U256::from(1)), 32),
                            Value::Uint(word(U256::from(2)), 32),
                        ],
                        Type::Uint(32)
                    ),
                    Value::Array(vec![Value::Uint(word(U256::from(3)), 32)], Type::Uint(32)),
                ],
                Type::Array(Box::new(Type::Uint(32)))
            ),
        ]),
    );
}

#[test]
fn encode_uint() {
    let value = Value::Uint(word(U256::from(0xefcdab)), 56);

    let mut expected_bytes = [0u8; 32].to_vec();
    expected_bytes[31] = 0xab;
    expected_bytes[30] = 0xcd;
    expected_bytes[29] = 0xef;

    assert_eq!(Value::encode(&vec![value]), expected_bytes);
}

#[test]
fn encode_int() {
    let value = Value::Int(word(U256::from(0xabcdef)), 56);

    let mut expected_bytes = [0u8; 32].to_vec();
    expected_bytes[31] = 0xef;
    expected_bytes[30] = 0xcd;
    expected_bytes[29] = 0xab;

    assert_eq!(Value::encode(&vec![value]), expected_bytes);
}

#[test]
fn encode_address() {
    let addr = H160::random();
    let value = Value::Address(addr.0);

    let mut expected_bytes = [0u8; 32].to_vec();
    expected_bytes[12..32].copy_from_slice(addr.as_fixed_bytes());

    assert_eq!(Value::encode(&vec![value]), expected_bytes);
}

#[test]
fn encode_bool() {
    let mut true_vec = [0u8; 32].to_vec();
    true_vec[31] = 1;

    let false_vec = [0u8; 32].to_vec();

    assert_eq!(Value::encode(&vec![Value::Bool(true)]), true_vec);
    assert_eq!(Value::encode(&vec![Value::Bool(false)]), false_vec);
}

#[test]
fn encode_fixed_bytes() {
    let mut bytes = [0u8; 32].to_vec();
    for i in 0..16 {
        bytes[i] = i as u8;
    }

    assert_eq!(
        Value::encode(&vec![Value::FixedBytes(bytes[0..16].to_vec())]),
        bytes
    );
}

#[test]
fn encode_fixed_array() {
    let uint1 = U256::from(57);
    let uint2 = U256::from(109);

    let value = Value::FixedArray(
        vec![Value::Uint(word(uint1), 56), Value::Uint(word(uint2), 56)],
        Type::Uint(56),
    );

    let mut expected_bytes = [0u8; 64];
    uint1.to_big_endian(&mut expected_bytes[0..32]);
    uint2.to_big_endian(&mut expected_bytes[32..64]);

    assert_eq!(Value::encode(&vec![value]), expected_bytes);
}

#[test]
fn encode_string_and_bytes() {
    // Bytes and strings are encoded in the same way.

    let mut s = String::with_capacity(2890);
    s.reserve(2890);
    for i in 0..1000 {
        s += i.to_string().as_ref();
    }

    let mut expected_bytes = [0u8; 2976];
    expected_bytes[31] = 0x20; // big-endian offset
    expected_bytes[63] = 0x4a; // big-endian string size (2890 = 0xb4a)
    expected_bytes[62] = 0x0b;
    expected_bytes[64..(64 + 2890)].copy_from_slice(s.as_bytes());

    assert_eq!(Value::encode(&vec![Value::String(s)]), expected_bytes);
}

#[test]
fn encode_array() {
    let addr1 = H160::random();
    let addr2 = H160::random();

    let value = Value::Array(
        vec![Value::Address(addr1.0), Value::Address(addr2.0)],
        Type::Address,
    );

    let mut expected_bytes = [0u8; 128];
    expected_bytes[31] = 0x20; // big-endian offset
    expected_bytes[63] = 2; // big-endian array length
    expected_bytes[76..96].copy_from_slice(addr1.as_fixed_bytes());
    expected_bytes[108..128].copy_from_slice(addr2.as_fixed_bytes());

    assert_eq!(Value::encode(&vec![value]), expected_bytes);
}

#[test]
fn encode_many() {
    let values = vec![
        Value::String("abc".to_string()),
        Value::Uint(word(U256::from(5)), 32),
        Value::FixedArray(
            vec![
                Value::Array(
                    vec![
                        Value::Uint(word(U256::from(1)), 32),
                        Value::Uint(word(U256::from(2)), 32),
                    ],
                    Type::Uint(32),
                ),
                Value::Array(vec![Value::Uint(word(U256::from(3)), 32)], Type::Uint(32)),
            ],
            Type::Array(Box::new(Type::Uint(32))),
        ),
    ];

    let expected = "0000000000000000000000000000000000000000000000000000000000000060000000000000000000000000000000000000000000000000000000000000000500000000000000000000000000000000000000000000000000000000000000a000000000000000000000000000000000000000000000000000000000000000036162630000000000000000000000000000000000000000000000000000000000000000000000000000000000000000000000000000000000000000000000004000000000000000000000000000000000000000000000000000000000000000a000000000000000000000000000000000000000000000000000000000000000020000000000000000000000000000000000000000000000000000000000000001000000000000000000000000000000000000000000000000000000000000000200000000000000000000000000000000000000000000000000000000000000010000000000000000000000000000000000000000000000000000000000000003";
    let encoded = hex::encode(Value::encode(&values));

    assert_eq!(encoded, expected);
}
