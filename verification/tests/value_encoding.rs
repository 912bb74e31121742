use minx::value::MinxValue;

#[test]
fn scalars_encode_with_their_variant() {
    assert_eq!(MinxValue::Bool(true).serilize(), b"#t\r\n".to_vec());
    assert_eq!(MinxValue::Bool(false).serilize(), b"#f\r\n".to_vec());
    assert_eq!(MinxValue::UInt8(255).serilize(), b":b255\r\n".to_vec());
    assert_eq!(MinxValue::Int8(-128).serilize(), b":B-128\r\n".to_vec());
    assert_eq!(MinxValue::UInt16(0).serilize(), b":w0\r\n".to_vec());
    assert_eq!(MinxValue::Int16(-1).serilize(), b":W-1\r\n".to_vec());
    assert_eq!(MinxValue::UInt32(4294967295).serilize(), b":d4294967295\r\n".to_vec());
    assert_eq!(MinxValue::Int32(i32::MIN).serilize(), b":D-2147483648\r\n".to_vec());
    assert_eq!(MinxValue::UInt64(u64::MAX).serilize(), b":q18446744073709551615\r\n".to_vec());
    assert_eq!(MinxValue::Int64(i64::MIN).serilize(), b":Q-9223372036854775808\r\n".to_vec());
}

#[test]
fn same_number_in_different_variants_encodes_differently() {
    let all = [
        MinxValue::UInt8(1),
        MinxValue::Int8(1),
        MinxValue::UInt16(1),
        MinxValue::Int16(1),
        MinxValue::UInt32(1),
        MinxValue::Int32(1),
        MinxValue::UInt64(1),
        MinxValue::Int64(1),
        MinxValue::Bool(true),
    ];
    for (i, a) in all.iter().enumerate() {
        for (j, b) in all.iter().enumerate() {
            assert_eq!(a.serilize() == b.serilize(), i == j);
            assert_eq!(a.same(b), i == j);
        }
    }
}

#[test]
fn strings_encode_their_utf8_bytes() {
    assert_eq!(MinxValue::String("foobar".to_string()).serilize(), b"$6\r\nfoobar\r\n".to_vec());
    assert_eq!(MinxValue::String(String::new()).serilize(), b"$0\r\n\r\n".to_vec());
    let mut expected = b"$3\r\n".to_vec();
    expected.extend_from_slice("黑".as_bytes());
    expected.extend_from_slice(b"\r\n");
    assert_eq!(MinxValue::String("黑".to_string()).serilize(), expected);
}

#[test]
fn collections_encode_header_then_items() {
    let v = MinxValue::Array(vec![
        MinxValue::Int32(1),
        MinxValue::String("a".to_string()),
        MinxValue::Array(vec![]),
    ]);
    assert_eq!(v.serilize(), b"*3\r\n:D1\r\n$1\r\na\r\n*0\r\n".to_vec());
    let s = MinxValue::HashSet(vec![MinxValue::Bool(true), MinxValue::UInt8(2)]);
    assert_eq!(s.serilize(), b"~2\r\n#t\r\n:b2\r\n".to_vec());
    let nested_a = MinxValue::Array(vec![MinxValue::Array(vec![MinxValue::UInt8(1)]), MinxValue::UInt8(2)]);
    let nested_b = MinxValue::Array(vec![MinxValue::Array(vec![MinxValue::UInt8(1), MinxValue::UInt8(2)])]);
    assert_ne!(nested_a.serilize(), nested_b.serilize());
    assert!(!nested_a.same(&nested_b));
}

#[test]
fn set_of_keeps_each_value_once() {
    let s = MinxValue::set_of(vec![
        MinxValue::UInt8(1),
        MinxValue::Int8(1),
        MinxValue::UInt8(1),
        MinxValue::String("x".to_string()),
        MinxValue::String("x".to_string()),
    ]);
    match &s {
        MinxValue::HashSet(m) => {
            assert_eq!(m.len(), 3);
            assert!(m[0].same(&MinxValue::UInt8(1)));
            assert!(m[1].same(&MinxValue::Int8(1)));
            assert!(m[2].same(&MinxValue::String("x".to_string())));
        }
        _ => panic!("not a set"),
    }
    assert_eq!(s.serilize(), b"~3\r\n$1\r\nx\r\n:B1\r\n:b1\r\n".to_vec());
    match MinxValue::set_of(vec![]) {
        MinxValue::HashSet(m) => assert!(m.is_empty()),
        _ => panic!("not a set"),
    }
}

#[test]
fn same_compares_structurally() {
    let a = MinxValue::HashSet(vec![MinxValue::String("a".to_string())]);
    let b = MinxValue::HashSet(vec![MinxValue::String("a".to_string())]);
    let c = MinxValue::Array(vec![MinxValue::String("a".to_string())]);
    assert!(a.same(&b));
    assert!(!a.same(&c));
    assert_eq!(a.serilize(), b.serilize());
}

#[test]
fn sets_in_any_order_are_the_same_and_encode_alike() {
    let a = MinxValue::HashSet(vec![
        MinxValue::UInt8(2),
        MinxValue::String("b".to_string()),
        MinxValue::Bool(false),
    ]);
    let b = MinxValue::HashSet(vec![
        MinxValue::Bool(false),
        MinxValue::UInt8(2),
        MinxValue::String("b".to_string()),
    ]);
    assert!(a.same(&b));
    assert!(b.same(&a));
    assert_eq!(a.serilize(), b.serilize());
    assert_eq!(a.serilize(), b"~3\r\n#f\r\n$1\r\nb\r\n:b2\r\n".to_vec());
    let c = MinxValue::HashSet(vec![MinxValue::UInt8(2), MinxValue::Bool(false)]);
    assert!(!a.same(&c));
    assert!(!c.same(&a));
    assert_ne!(a.serilize(), c.serilize());
}

#[test]
fn nested_sets_encode_alike_in_any_order() {
    let a = MinxValue::HashSet(vec![
        MinxValue::HashSet(vec![MinxValue::UInt8(1), MinxValue::UInt8(2)]),
        MinxValue::UInt8(0),
    ]);
    let b = MinxValue::HashSet(vec![
        MinxValue::UInt8(0),
        MinxValue::HashSet(vec![MinxValue::UInt8(2), MinxValue::UInt8(1)]),
    ]);
    assert!(a.same(&b));
    assert_eq!(a.serilize(), b.serilize());
    assert_eq!(a.serilize(), b"~2\r\n:b0\r\n~2\r\n:b1\r\n:b2\r\n".to_vec());
}

#[test]
fn arrays_keep_their_order() {
    let x = MinxValue::Array(vec![MinxValue::UInt8(1), MinxValue::UInt8(2)]);
    let y = MinxValue::Array(vec![MinxValue::UInt8(2), MinxValue::UInt8(1)]);
    assert!(!x.same(&y));
    assert_ne!(x.serilize(), y.serilize());
}
