use oxdb_engine::oxdbin::basebin::decode;
use oxdb_engine::oxdbin::basebin::decode_n;
use oxdb_engine::oxdbin::basebin::encode;
use oxdb_engine::oxdbin::basebin::encode_n;
use oxdb_engine::oxdbin::basebin::try_decode;
use oxdb_engine::oxdbin::value::Value;

fn s(text: &str) -> Value {
    Value::Str(text.to_string())
}

fn entry(key: &str, value: Value) -> (String, Value) {
    (key.to_string(), value)
}

/// The example record, with the map entries in the order a
/// JSON map keeps them (sorted by key).
fn sample_record() -> Value {
    Value::Object(vec![
        entry("alive", Value::Int(10)),
        entry(
            "details",
            Value::Object(vec![
                entry("notes", s("md")),
                entry("vlist", Value::Array(vec![s("1"), Value::Int(2)])),
            ]),
        ),
        entry("is_admin", Value::Bool(true)),
        entry("name", s("record")),
        entry(
            "scores",
            Value::Array(vec![Value::Int(85), Value::Int(92), Value::Int(88)]),
        ),
    ])
}

#[test]
fn basebin_main() {
    let data = sample_record();

    let encoded_data = encode(&data);
    println!("Encoded data: {:?},{}", encoded_data, encoded_data.len());

    let decoded_data = decode(&encoded_data, 0);
    println!("Decoded data: {:?}", decoded_data);
    assert_eq!(decoded_data.0, data);
    assert_eq!(decoded_data.1, encoded_data.len());

    let encoded_n = encode_n(20);
    println!("Encoded n: {:?}", encoded_n);

    let (decoded_n, new_pos) = decode_n(&encoded_n, 0);
    println!("Decoded n: {}, New Position: {}", decoded_n, new_pos);
    assert_eq!(decoded_n, 0);
    assert_eq!(new_pos, 20);
}

#[test]
fn encode_scalars_exact_bytes() {
    assert_eq!(encode(&Value::Int(10)), vec![b'i', 0, 0, 0, 0, 0, 0, 0, 10]);
    assert_eq!(
        encode(&Value::Int(-2)),
        vec![b'i', 0xff, 0xff, 0xff, 0xff, 0xff, 0xff, 0xff, 0xfe]
    );
    assert_eq!(encode(&Value::Bool(true)), vec![b't', 1]);
    assert_eq!(encode(&Value::Bool(false)), vec![b't', 0]);
    assert_eq!(encode(&s("md")), vec![b's', 0, 0, 0, 2, b'm', b'd']);
    assert_eq!(
        encode(&Value::Float(1.5f64.to_bits())),
        vec![b'f', 0x3f, 0xf8, 0, 0, 0, 0, 0, 0]
    );
}

#[test]
fn encode_utf8_string_counts_bytes() {
    // "é" is two bytes in UTF-8.
    assert_eq!(encode(&s("é")), vec![b's', 0, 0, 0, 2, 0xc3, 0xa9]);
}

#[test]
fn encode_collections_exact_bytes() {
    let arr = Value::Array(vec![s("1"), Value::Int(2)]);
    assert_eq!(
        encode(&arr),
        vec![b'v', 0, 0, 0, 2, b's', 0, 0, 0, 1, b'1', b'i', 0, 0, 0, 0, 0, 0, 0, 2]
    );
    let obj = Value::Object(vec![entry("a", Value::Bool(false))]);
    assert_eq!(
        encode(&obj),
        vec![b'm', 0, 0, 0, 1, b's', 0, 0, 0, 1, b'a', b't', 0]
    );
    assert_eq!(encode(&Value::Array(vec![])), vec![b'v', 0, 0, 0, 0]);
}

#[test]
fn decode_reads_back_every_kind() {
    let values = vec![
        Value::Int(i64::MIN),
        Value::Int(i64::MAX),
        Value::Float((-0.25f64).to_bits()),
        Value::Bool(false),
        s(""),
        s("hello, ☃"),
        Value::Array(vec![]),
        Value::Object(vec![]),
        sample_record(),
    ];
    for v in values {
        let bytes = encode(&v);
        let (back, end) = decode(&bytes, 0);
        assert_eq!(back, v);
        assert_eq!(end, bytes.len());
    }
}

#[test]
fn decode_at_an_offset_in_a_larger_buffer() {
    let mut buf = vec![9u8, 9, 9];
    buf.extend(encode(&s("xy")));
    buf.extend(encode(&Value::Int(7)));
    let (first, next) = decode(&buf, 3);
    assert_eq!(first, s("xy"));
    assert_eq!(next, 3 + 7);
    let (second, end) = decode(&buf, next);
    assert_eq!(second, Value::Int(7));
    assert_eq!(end, buf.len());
}

#[test]
fn decode_bool_byte_other_than_one_is_false() {
    assert_eq!(decode(&[b't', 2], 0), (Value::Bool(false), 2));
    assert_eq!(decode(&[b't', 1], 0), (Value::Bool(true), 2));
}

#[test]
fn decode_map_later_duplicate_key_wins() {
    let bytes = vec![
        b'm', 0, 0, 0, 2, b's', 0, 0, 0, 1, b'a', b't', 1, b's', 0, 0, 0, 1, b'a', b't', 0,
    ];
    let (v, end) = decode(&bytes, 0);
    assert_eq!(v, Value::Object(vec![entry("a", Value::Bool(false))]));
    assert_eq!(end, bytes.len());
}

#[test]
fn try_decode_refuses_what_decode_cannot_read() {
    // unknown type identifier
    assert_eq!(try_decode(&[b'x'], 0), None);
    // the run-of-deleted-bytes identifier is not a value
    assert_eq!(try_decode(&encode_n(6), 0), None);
    // position past the end
    assert_eq!(try_decode(&[b't', 1], 2), None);
    // string longer than the buffer
    assert_eq!(try_decode(&[b's', 0, 0, 0, 5, b'a'], 0), None);
    // string that is not UTF-8
    assert_eq!(try_decode(&[b's', 0, 0, 0, 1, 0xff], 0), None);
    // truncated integer
    assert_eq!(try_decode(&[b'i', 0, 0, 0], 0), None);
    // NaN and infinity have no JSON number
    let mut nan = vec![b'f'];
    nan.extend(f64::NAN.to_bits().to_be_bytes());
    assert_eq!(try_decode(&nan, 0), None);
    let mut inf = vec![b'f'];
    inf.extend(f64::INFINITY.to_bits().to_be_bytes());
    assert_eq!(try_decode(&inf, 0), None);
    // map key that is not a string
    assert_eq!(
        try_decode(&[b'm', 0, 0, 0, 1, b't', 1, b't', 1], 0),
        None
    );
    // vector with fewer items than announced
    assert_eq!(try_decode(&[b'v', 0, 0, 0, 2, b't', 1], 0), None);
    // a good value is read
    assert_eq!(try_decode(&[b't', 1], 0), Some((Value::Bool(true), 2)));
}

#[test]
fn encode_n_layout_and_skip() {
    let bytes = encode_n(20);
    assert_eq!(bytes.len(), 20);
    assert_eq!(&bytes[..5], &[b'n', 0, 0, 0, 15]);
    assert!(bytes[5..].iter().all(|&b| b == 0));
    assert_eq!(encode_n(5), vec![b'n', 0, 0, 0, 0]);
}

#[test]
fn decode_n_skips_from_an_offset_ignoring_the_identifier() {
    let mut buf = vec![1u8, 2];
    buf.extend(encode_n(9));
    assert_eq!(decode_n(&buf, 2), (0, 11));
    // the identifier byte is not examined
    assert_eq!(decode_n(&[b'z', 0, 0, 1, 0], 0), (0, 5 + 256));
}
