use tea::values::{Entry, SpecificValue, TeaBool, TeaFunction, TeaNull, TeaNumber, TeaObject, TeaStr, Value};

fn number(x: f64) -> Value {
    TeaNumber(x.to_be_bytes()).to_value()
}

fn entry(key: &str, value: Value, flags: u8) -> Entry {
    Entry { key: key.to_string(), value, flags }
}

#[test]
fn number_round_trip_keeps_the_bits() {
    for x in [0.0f64, -0.0, 2.5, -1e300, f64::INFINITY, f64::NAN, f64::MIN_POSITIVE] {
        let v = number(x);
        assert_eq!(v.data_len, 8);
        assert_eq!(v.data, x.to_be_bytes().to_vec());
        let back = v.as_tea_number().ok().unwrap();
        assert_eq!(f64::from_be_bytes(back.0).to_bits(), x.to_bits());
    }
}

#[test]
fn string_round_trip() {
    for s in ["", "ab", "h\u{e9}llo \u{1F375}"] {
        let v = TeaStr(s.to_string()).to_value();
        assert_eq!(v.data, s.as_bytes().to_vec());
        assert_eq!(v.data_len as usize, s.len());
        assert_eq!(v.as_tea_string().ok().unwrap().value(), s.to_string());
    }
}

#[test]
fn bool_round_trip() {
    for b in [true, false] {
        let v = TeaBool(b).to_value();
        assert_eq!(v.data, vec![if b { 1u8 } else { 0u8 }]);
        assert_eq!(v.as_tea_bool().ok().unwrap().value(), b);
    }
}

#[test]
fn null_is_false_on_the_wire() {
    let null = TeaNull.to_value();
    let f = TeaBool(false).to_value();
    assert_eq!(null.data, f.data);
    assert_ne!(number(0.0).data, f.data);
}

#[test]
fn number_of_wrong_length_is_refused() {
    let v = Value::new(vec![1, 2, 3]);
    let e = v.as_tea_number().err().unwrap();
    assert_eq!(e.target, "values::TeaNumber::value");
    assert_eq!(e.value.data, vec![1, 2, 3]);
}

#[test]
fn invalid_utf8_is_refused() {
    let v = Value::new(vec![0xff, 0xfe]);
    assert!(v.as_tea_string().is_err());
}

#[test]
fn bool_of_wrong_length_is_refused() {
    assert!(Value::new(vec![1, 1]).as_tea_bool().is_err());
    assert!(Value::new(vec![]).as_tea_bool().is_err());
    assert!(!Value::new(vec![2]).as_tea_bool().ok().unwrap().value());
}

#[test]
fn framing_round_trip() {
    let v = Value::new(vec![9, 8, 7]);
    let bytes = v.to_bytes();
    assert_eq!(bytes, vec![0, 3, 9, 8, 7]);
    let mut longer = bytes.clone();
    longer.push(42);
    let back = Value::from_bytes(&longer).unwrap();
    assert_eq!(back.data, vec![9, 8, 7]);
    assert_eq!(back.data_len, 3);
    assert!(Value::from_bytes(&[0, 4, 1, 2, 3]).is_none());
    assert!(Value::from_bytes(&[0]).is_none());
}

#[test]
fn long_payload_length_is_big_endian() {
    let v = Value::new(vec![7u8; 300]);
    let bytes = v.to_bytes();
    assert_eq!(bytes[0], 1);
    assert_eq!(bytes[1], 44);
    assert_eq!(bytes.len(), 302);
}

#[test]
fn function_encoding_writes_length_first() {
    let f = TeaFunction::new(2, &[7, 8]);
    let v = f.to_value();
    assert_eq!(v.data, vec![0, 2, 7, 8]);
}

#[test]
fn function_decoding_reads_length_at_offset_one() {
    let v = Value::new(vec![9, 0, 2, 7, 8, 5]);
    let f = v.as_tea_function().ok().unwrap();
    assert_eq!(f.code_len, 2);
    assert_eq!(f.code, vec![7, 8]);
    assert!(Value::new(vec![0, 2, 7, 8]).as_tea_function().is_err());
    assert!(Value::new(vec![0, 0]).as_tea_function().is_err());
}

#[test]
fn object_round_trip_same_entries() {
    let o = TeaObject::new(vec![
        entry("x", number(1.5), 2),
        entry("name", TeaStr("tea".to_string()).to_value(), 0),
        entry("", TeaBool(true).to_value(), 7),
    ]);
    let v = o.to_value();
    let back = v.as_tea_object().ok().unwrap();
    assert_eq!(back.entries.len(), 3);
    for (a, b) in o.entries.iter().zip(back.entries.iter()) {
        assert_eq!(a.key, b.key);
        assert_eq!(a.value.data, b.value.data);
        assert_eq!(a.flags, b.flags);
    }
}

#[test]
fn object_encoding_layout() {
    let o = TeaObject::new(vec![entry("k", Value::new(vec![5]), 3)]);
    let v = o.to_value();
    assert_eq!(v.data, vec![0, 1, 0, 1, b'k', 0, 1, 5, 3]);
}

#[test]
fn empty_object() {
    let v = TeaObject::new(vec![]).to_value();
    assert_eq!(v.data, vec![0, 0]);
    assert_eq!(v.as_tea_object().ok().unwrap().entries.len(), 0);
}

#[test]
fn truncated_object_is_refused() {
    let cases: Vec<(Vec<u8>, &str)> = vec![
        (vec![0], "values::TeaObject::num_entries"),
        (vec![0, 1, 0], "values::TeaObject::entry::key_len"),
        (vec![0, 1, 0, 3, b'a'], "values::TeaObject::entry::key"),
        (vec![0, 1, 0, 1, 0xff, 0, 0, 1], "values::TeaObject::entry::key"),
        (vec![0, 1, 0, 1, b'a', 0, 2, 1], "values::TeaObject::entry::value"),
        (vec![0, 1, 0, 1, b'a', 0, 1, 1], "values::TeaObject::entry::flags"),
    ];
    for (bytes, target) in cases {
        let e = Value::new(bytes).as_tea_object().err().unwrap();
        assert_eq!(e.target, target);
    }
}

#[test]
fn object_lookup_finds_first_key() {
    let o = TeaObject::new(vec![entry("a", Value::new(vec![1]), 0), entry("a", Value::new(vec![2]), 0)]);
    assert_eq!(o.get(b"a").unwrap().data, vec![1]);
    assert!(o.get(b"b").is_none());
}

#[test]
fn payload_equality_is_bytewise() {
    assert!(tea::values::same_bytes(&[1, 2], &[1, 2]));
    assert!(!tea::values::same_bytes(&[1, 2], &[1, 3]));
    assert!(!tea::values::same_bytes(&[0], &[0, 0]));
}

#[test]
fn copies_keep_the_payload() {
    let v = Value::new_again([1, 2, 3, 4, 5, 6, 7, 8]);
    let c = v.copy();
    assert_eq!(c.data, vec![1, 2, 3, 4, 5, 6, 7, 8]);
    assert_eq!(c.data_len, 8);
    assert_eq!(Value::from_specific(&TeaBool(true)).data, vec![1]);
}

#[test]
fn decoder_errors_name_their_view() {
    let v = Value::new(vec![0xff, 0xfe]);
    let e = v.as_tea_string().err().unwrap();
    assert_eq!(e.target, "values::TeaStr::value");
    assert_eq!(e.value.data, vec![0xff, 0xfe]);
    assert_eq!(e.value.data_len, 2);
    assert_eq!(Value::new(vec![]).as_tea_bool().err().unwrap().target, "values::TeaBool::value");
    assert_eq!(Value::new(vec![1]).as_tea_function().err().unwrap().target, "values::TeaFunction::code_len");
    assert_eq!(Value::new(vec![1]).as_tea_object().err().unwrap().target, "values::TeaObject::num_entries");
}
