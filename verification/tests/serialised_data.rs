use sc2replay::bytes::ParseError;
use sc2replay::sc2mpq::parser::{
    parse_array, parse_byte_string, parse_four_bytes_int, parse_kv, parse_serialized_data,
    parse_single_byte_int, parse_vlf,
};
use sc2replay::sc2mpq::structs::DataType;

#[test]
fn test_byte_str() {
    let res1: Vec<u8> = vec!();
    let res: &[u8] = &res1;
    assert_eq!(
        parse_byte_string(&[0x02, 0x0a, 0x50, 0x69, 0x6c, 0x6c, 0x65]),
        Ok((res, DataType::ByteString("Pille".to_string())))
    )
}

#[test]
fn test_sbint() {
    let res1: Vec<u8> = vec!();
    let res: &[u8] = &res1;
    assert_eq!(parse_single_byte_int(&[0x06, 0x4C]),
               Ok((res, DataType::SingleByteInteger(38)))
    )
}

#[test]
fn test_fbint() {
    let res1: Vec<u8> = vec!();
    let res: &[u8] = &res1;
    assert_eq!(parse_four_bytes_int(&[0x07, 0x00, 0x00, 0x53, 0x32,]),
               Ok((res, DataType::FourBytesInteger(10649)))
    )
}

#[test]
fn readme_single_byte_integer() {
    let (_, d) = parse_single_byte_int(&[0x06, 0x2C]).unwrap();
    assert_eq!(d, DataType::SingleByteInteger(22));
}

#[test]
fn readme_four_byte_integer() {
    let (_, d) = parse_four_bytes_int(&[0x07, 0x2C, 0x45, 0x3A, 0x41]).unwrap();
    assert_eq!(d, DataType::FourBytesInteger(-(0x2C453A41i64 >> 1)));
}

#[test]
fn readme_variable_length_integer() {
    match parse_vlf(&[0x09, 0b10001100, 0b10000011, 0b10000000, 0b00000001]) {
        Ok((rest, DataType::VLFInteger(n))) => {
            assert!(rest.is_empty());
            assert_eq!(n.to_decimal_string(), "25214977");
        }
        other => panic!("unexpected result {:?}", other),
    }
}

#[test]
fn equality_compares_arrays_item_by_item() {
    let a = DataType::ArrayObject(vec![Box::new(DataType::SingleByteInteger(1))]);
    let b = DataType::ArrayObject(vec![
        Box::new(DataType::SingleByteInteger(1)),
        Box::new(DataType::SingleByteInteger(2)),
    ]);
    let c = DataType::ArrayObject(vec![Box::new(DataType::SingleByteInteger(3))]);
    assert!(a == b);
    assert!(a != c);
    assert!(DataType::ByteString("x".to_string()) != DataType::SingleByteInteger(1));
    let (_, v) = parse_vlf(&[0x09, 0x01]).unwrap();
    let (_, w) = parse_vlf(&[0x09, 0x01]).unwrap();
    assert!(v != w);
}

#[test]
fn pretty_print_of_values() {
    let (_, d) = parse_array(&[0x04, 0x10, 0x00, 0x06, 0x06, 0x02, 0x02, 0x02, 0x41, 0x09, 0x05]).unwrap();
    assert_eq!(d.to_string(), "[ 1, \"A\", 5 ]");
    let data = [0x05, 0x04, 0x02, 0x06, 0x03, 0x00, 0x02, 0x02, 0x42];
    let (_, kv) = parse_kv(&data).unwrap();
    assert_eq!(kv.pretty_print(1), "{\n\t\t\"0\": \"B\",\n\t\t\"1\": -1\n\t}");
}

#[test]
fn negative_single_byte_integer() {
    match parse_single_byte_int(&[0x06, 0x4D, 0xFF]) {
        Ok((rest, DataType::SingleByteInteger(i))) => {
            assert_eq!(rest, &[0xFF][..]);
            assert_eq!(i, -38);
        }
        other => panic!("unexpected result {:?}", other),
    }
}

#[test]
fn negative_four_byte_integer() {
    match parse_four_bytes_int(&[0x07, 0x00, 0x00, 0x53, 0x33]) {
        Ok((_, DataType::FourBytesInteger(i))) => assert_eq!(i, -10649),
        other => panic!("unexpected result {:?}", other),
    }
}

#[test]
fn vlf_integer_reads_base_128() {
    match parse_vlf(&[0x09, 0x81, 0x00, 0x42]) {
        Ok((rest, DataType::VLFInteger(n))) => {
            assert_eq!(rest, &[0x42][..]);
            assert_eq!(n.to_decimal_string(), "128");
        }
        other => panic!("unexpected result {:?}", other),
    }
}

#[test]
fn vlf_integer_without_last_byte_fails() {
    assert!(matches!(parse_vlf(&[0x09, 0x81]), Err(ParseError::UnexpectedEnd)));
}

#[test]
fn array_of_two_values() {
    match parse_array(&[0x04, 0x10, 0x00, 0x04, 0x06, 0x02, 0x06, 0x05]) {
        Ok((rest, DataType::ArrayObject(items))) => {
            assert!(rest.is_empty());
            assert_eq!(items.len(), 2);
            assert!(matches!(*items[0], DataType::SingleByteInteger(1)));
            assert!(matches!(*items[1], DataType::SingleByteInteger(-2)));
        }
        other => panic!("unexpected result {:?}", other),
    }
}

#[test]
fn array_with_wrong_header_is_refused() {
    assert!(matches!(parse_array(&[0x04, 0x11, 0x00, 0x00]), Err(ParseError::UnexpectedTag)));
}

#[test]
fn key_value_object_keeps_last_value_of_a_key() {
    let data = [0x05, 0x06, 0x00, 0x06, 0x02, 0x02, 0x06, 0x03, 0x00, 0x06, 0x08];
    match parse_kv(&data) {
        Ok((rest, DataType::KeyValueObject(kv))) => {
            assert!(rest.is_empty());
            assert_eq!(kv.len(), 2);
            assert_eq!(kv[0].0, 0);
            assert!(matches!(*kv[0].1, DataType::SingleByteInteger(4)));
            assert_eq!(kv[1].0, 1);
            assert!(matches!(*kv[1].1, DataType::SingleByteInteger(-1)));
        }
        other => panic!("unexpected result {:?}", other),
    }
}

#[test]
fn unknown_tag_is_refused() {
    assert!(matches!(parse_serialized_data(&[0x01, 0x00]), Err(ParseError::UnexpectedTag)));
    assert!(matches!(parse_serialized_data(&[]), Err(ParseError::UnexpectedTag)));
}

#[test]
fn parser_for_another_tag_refuses() {
    assert!(matches!(parse_single_byte_int(&[0x07, 0, 0, 0, 0]), Err(ParseError::UnexpectedTag)));
    assert!(matches!(parse_kv(&[0x06, 0x02]), Err(ParseError::UnexpectedTag)));
}

#[test]
fn truncated_byte_string_fails() {
    assert!(matches!(parse_byte_string(&[0x02, 0x0a, 0x50]), Err(ParseError::UnexpectedEnd)));
}

#[test]
fn byte_string_is_windows_1252() {
    match parse_byte_string(&[0x02, 0x02, 0x80]) {
        Ok((_, DataType::ByteString(s))) => assert_eq!(s, "\u{20ac}"),
        other => panic!("unexpected result {:?}", other),
    }
}

#[test]
fn constructors() {
    assert_eq!(DataType::bytestring("a".to_string()), DataType::ByteString("a".to_string()));
    assert_eq!(
        DataType::array_object(vec![Box::new(DataType::SingleByteInteger(1))]),
        DataType::ArrayObject(vec![Box::new(DataType::SingleByteInteger(1))])
    );
    assert_eq!(DataType::singlebyte_int(0x4C), DataType::SingleByteInteger(38));
    assert_eq!(DataType::singlebyte_int(0x4D), DataType::SingleByteInteger(-38));
    assert_eq!(DataType::fourbytes_int(&[0x00, 0x00, 0x53, 0x32]), DataType::FourBytesInteger(10649));
    match DataType::vlf_int(vec![1, 0, 5]) {
        DataType::VLFInteger(n) => assert_eq!(n.to_decimal_string(), "16389"),
        other => panic!("unexpected {:?}", other),
    }
}

#[test]
fn integers_print_in_decimal() {
    assert_eq!(DataType::FourBytesInteger(i64::MIN).to_string(), "-9223372036854775808");
    assert_eq!(DataType::FourBytesInteger(i64::MAX).to_string(), "9223372036854775807");
    assert_eq!(DataType::SingleByteInteger(0).to_string(), "0");
    assert_eq!(DataType::SingleByteInteger(-10).to_string(), "-10");
}
