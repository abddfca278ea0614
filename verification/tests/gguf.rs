use freetoken::gguf::{block_layout, Gguf, GgufError, Value};

fn string(buf: &mut Vec<u8>, s: &str) {
    buf.extend((s.len() as u64).to_le_bytes());
    buf.extend(s.as_bytes());
}

fn header(n_tensors: u64, n_kv: u64) -> Vec<u8> {
    let mut buf: Vec<u8> = Vec::new();
    buf.extend(b"GGUF");
    buf.extend(3u32.to_le_bytes());
    buf.extend(n_tensors.to_le_bytes());
    buf.extend(n_kv.to_le_bytes());
    buf
}

fn tensor(buf: &mut Vec<u8>, name: &str, dims: &[u64], ty: u32, offset: u64) {
    string(buf, name);
    buf.extend((dims.len() as u32).to_le_bytes());
    for d in dims {
        buf.extend(d.to_le_bytes());
    }
    buf.extend(ty.to_le_bytes());
    buf.extend(offset.to_le_bytes());
}

fn pad(buf: &mut Vec<u8>, unit: usize) {
    while buf.len() % unit != 0 {
        buf.push(0);
    }
}

fn error(bytes: &[u8]) -> GgufError {
    match Gguf::open(bytes) {
        Ok(_) => panic!("the file was accepted"),
        Err(e) => e,
    }
}

#[test]
fn parses_handcrafted_file() {
    let mut buf: Vec<u8> = Vec::new();
    buf.extend(b"GGUF");
    buf.extend(3u32.to_le_bytes());
    buf.extend(1u64.to_le_bytes());
    buf.extend(1u64.to_le_bytes());
    let key = b"general.alignment";
    buf.extend((key.len() as u64).to_le_bytes());
    buf.extend(key);
    buf.extend(4u32.to_le_bytes());
    buf.extend(32u32.to_le_bytes());
    buf.extend(1u64.to_le_bytes());
    buf.extend(b"t");
    buf.extend(2u32.to_le_bytes());
    buf.extend(64u64.to_le_bytes());
    buf.extend(2u64.to_le_bytes());
    buf.extend(2u32.to_le_bytes());
    buf.extend(0u64.to_le_bytes());
    while buf.len() % 32 != 0 {
        buf.push(0);
    }
    let data_start = buf.len();
    buf.extend(std::iter::repeat(0xABu8).take(72));

    let g = Gguf::open(&buf).unwrap();
    assert_eq!(g.data_start, data_start);
    let t = g.tensor("t").unwrap();
    assert_eq!(t.dims, vec![64, 2]);
    assert_eq!(t.nbytes, 72);
    assert!(g.tensor_data("t").unwrap().iter().all(|&b| b == 0xAB));
    assert_eq!(g.tensor_data("t").unwrap().len(), 72);
    assert_eq!(g.meta.get("general.alignment").unwrap().as_u64(), Some(32));
}

#[test]
fn reads_every_kind_of_value() {
    let mut buf = header(0, 13);
    let mut put = |key: &str, ty: u32, body: &[u8]| {
        string(&mut buf, key);
        buf.extend(ty.to_le_bytes());
        buf.extend(body);
    };
    put("u8", 0, &[200]);
    put("i8", 1, &[0xFF]);
    put("u16", 2, &[0x34, 0x12]);
    put("i16", 3, &[0xFE, 0xFF]);
    put("u32", 4, &70000u32.to_le_bytes());
    put("i32", 5, &(-5i32).to_le_bytes());
    put("f32", 6, &1.5f32.to_le_bytes());
    put("bool", 7, &[2]);
    put("str", 8, &[3, 0, 0, 0, 0, 0, 0, 0, 0xE2, 0x96, 0x81]);
    let mut arr: Vec<u8> = Vec::new();
    arr.extend(2u32.to_le_bytes());
    arr.extend(2u64.to_le_bytes());
    arr.extend([1, 0, 2, 0]);
    put("arr", 9, &arr);
    put("u64", 10, &u64::MAX.to_le_bytes());
    put("i64", 11, &i64::MIN.to_le_bytes());
    put("f64", 12, &(-0.25f64).to_le_bytes());
    let g = Gguf::open(&buf).unwrap();
    assert_eq!(g.meta.get("u8"), Some(&Value::U8(200)));
    assert_eq!(g.meta.get("i8"), Some(&Value::I8(-1)));
    assert_eq!(g.meta.get("u16"), Some(&Value::U16(0x1234)));
    assert_eq!(g.meta.get("i16"), Some(&Value::I16(-2)));
    assert_eq!(g.meta.get("u32"), Some(&Value::U32(70000)));
    assert_eq!(g.meta.get("i32"), Some(&Value::I32(-5)));
    assert_eq!(g.meta.get("f32"), Some(&Value::F32(1.5f32.to_bits())));
    assert_eq!(g.meta.get("bool"), Some(&Value::Bool(true)));
    assert_eq!(g.meta.get("str"), Some(&Value::Str("\u{2581}".to_string())));
    assert_eq!(
        g.meta.get("arr"),
        Some(&Value::Arr(vec![Value::U16(1), Value::U16(2)]))
    );
    assert_eq!(g.meta.get("u64"), Some(&Value::U64(u64::MAX)));
    assert_eq!(g.meta.get("i64"), Some(&Value::I64(i64::MIN)));
    assert_eq!(g.meta.get("f64"), Some(&Value::F64((-0.25f64).to_bits())));
    assert_eq!(g.meta.get("i8").unwrap().as_u64(), None);
    assert_eq!(g.meta.get("u64").unwrap().as_u64(), Some(u64::MAX));
    assert_eq!(g.meta.get("str").unwrap().as_str(), Some("\u{2581}"));
    assert_eq!(g.meta.get("u8").unwrap().as_str(), None);
}

#[test]
fn the_later_of_two_entries_counts() {
    let mut buf = header(0, 2);
    for v in [5u8, 6] {
        string(&mut buf, "k");
        buf.extend(0u32.to_le_bytes());
        buf.push(v);
    }
    let g = Gguf::open(&buf).unwrap();
    assert_eq!(g.meta.get("k"), Some(&Value::U8(6)));
    assert_eq!(g.data_start, 64);
}

#[test]
fn header_errors() {
    assert_eq!(error(b"GGU"), GgufError::Truncated);
    assert_eq!(error(b"GGUX"), GgufError::NotGguf);
    let mut buf = header(0, 0);
    buf[4] = 4;
    assert_eq!(error(&buf), GgufError::UnsupportedVersion(4));
    buf[4] = 1;
    assert_eq!(error(&buf), GgufError::UnsupportedVersion(1));
    buf[4] = 2;
    assert!(Gguf::open(&buf).is_ok());
    assert_eq!(error(&header(0, 1)), GgufError::Truncated);
}

#[test]
fn entry_errors() {
    let mut buf = header(0, 1);
    string(&mut buf, "k");
    buf.extend(13u32.to_le_bytes());
    assert_eq!(error(&buf), GgufError::UnknownValueType(13));
    let mut buf = header(0, 1);
    buf.extend(1u64.to_le_bytes());
    buf.push(0xFF);
    assert_eq!(error(&buf), GgufError::BadUtf8);
    let mut buf = header(0, 1);
    buf.extend(u64::MAX.to_le_bytes());
    assert_eq!(error(&buf), GgufError::Truncated);
}

#[test]
fn tensor_errors() {
    let mut buf = header(1, 0);
    tensor(&mut buf, "t", &[8], 4, 0);
    assert_eq!(error(&buf), GgufError::UnsupportedTensorType(4));
    let mut buf = header(1, 0);
    tensor(&mut buf, "t", &[33], 2, 0);
    assert_eq!(error(&buf), GgufError::PartialBlock);
    let mut buf = header(1, 0);
    tensor(&mut buf, "t", &[1 << 40, 1 << 40], 0, 0);
    assert_eq!(error(&buf), GgufError::TooLarge);
    let mut buf = header(1, 0);
    tensor(&mut buf, "t", &[1 << 63], 0, 0);
    assert_eq!(error(&buf), GgufError::TooLarge);
}

#[test]
fn alignment_is_asked_for() {
    let mut buf = header(1, 1);
    string(&mut buf, "general.alignment");
    buf.extend(4u32.to_le_bytes());
    buf.extend(256u32.to_le_bytes());
    tensor(&mut buf, "t", &[2], 0, 4);
    pad(&mut buf, 256);
    let start = buf.len();
    buf.extend([0, 0, 0, 0, 1, 2, 3, 4, 5, 6, 7, 8]);
    let g = Gguf::open(&buf).unwrap();
    assert_eq!(g.data_start, start);
    assert_eq!(g.tensor_data("t").unwrap(), &[1, 2, 3, 4, 5, 6, 7, 8]);

    let mut buf = header(0, 1);
    string(&mut buf, "general.alignment");
    buf.extend(4u32.to_le_bytes());
    buf.extend(0u32.to_le_bytes());
    assert_eq!(error(&buf), GgufError::ZeroAlignment);
}

#[test]
fn missing_tensors_and_missing_data() {
    let mut buf = header(1, 0);
    tensor(&mut buf, "t", &[2], 0, u64::MAX);
    pad(&mut buf, 32);
    let g = Gguf::open(&buf).unwrap();
    assert!(matches!(g.tensor("u"), Err(GgufError::NoSuchTensor)));
    assert_eq!(g.tensor_data("u"), Err(GgufError::NoSuchTensor));
    assert_eq!(g.tensor_data("t"), Err(GgufError::OutOfBounds));
}

#[test]
fn block_sizes() {
    let sizes = [
        (0, 1, 4), (1, 1, 2), (2, 32, 18), (3, 32, 20), (6, 32, 22), (7, 32, 24), (8, 32, 34),
        (10, 256, 84), (11, 256, 110), (12, 256, 144), (13, 256, 176), (14, 256, 210),
        (16, 256, 66), (30, 1, 2),
    ];
    for (ty, items, bytes) in sizes {
        assert_eq!(block_layout(ty), Ok((items, bytes)));
    }
    assert_eq!(block_layout(9), Err(GgufError::UnsupportedTensorType(9)));
}

#[test]
fn numbers_are_compared_as_numbers() {
    let f32s = [0.0f32, -0.0, 1.5, -1.5, f32::INFINITY, f32::NEG_INFINITY, f32::NAN, -f32::NAN];
    for a in f32s {
        for b in f32s {
            assert_eq!(Value::F32(a.to_bits()) == Value::F32(b.to_bits()), a == b);
        }
    }
    let f64s = [0.0f64, -0.0, 2.5, -2.5, f64::INFINITY, f64::NEG_INFINITY, f64::NAN, -f64::NAN];
    for a in f64s {
        for b in f64s {
            assert_eq!(Value::F64(a.to_bits()) == Value::F64(b.to_bits()), a == b);
        }
    }
    let list = |x: f32| Value::Arr(vec![Value::Arr(vec![Value::F32(x.to_bits())]), Value::U8(1)]);
    assert_eq!(list(0.0), list(-0.0));
    assert_ne!(list(f32::NAN), list(f32::NAN));
    assert_ne!(list(1.0), list(2.0));
}

#[test]
fn values_of_different_types_are_different() {
    let all = || {
        vec![
            Value::U8(1),
            Value::I8(1),
            Value::U16(1),
            Value::I16(1),
            Value::U32(1),
            Value::I32(1),
            Value::F32(1),
            Value::Bool(true),
            Value::Str("1".to_string()),
            Value::Arr(vec![Value::U8(1)]),
            Value::Arr(vec![Value::U8(1), Value::U8(1)]),
            Value::U64(1),
            Value::I64(1),
            Value::F64(1),
        ]
    };
    for (i, a) in all().iter().enumerate() {
        for (j, b) in all().iter().enumerate() {
            assert_eq!(a == b, i == j);
        }
    }
    assert_ne!(Value::Str("1".to_string()), Value::Str("2".to_string()));
    assert_eq!(all().clone(), all());
    // a copy keeps the bits of what is no number
    match Value::F32(f32::NAN.to_bits()).clone() {
        Value::F32(bits) => assert_eq!(bits, f32::NAN.to_bits()),
        _ => panic!("the copy is of another type"),
    }
}
