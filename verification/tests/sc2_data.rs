use sc2replay::numbers::Integer;
use sc2replay::bytes::ParseError;
use sc2replay::sc2::parser::{
    _parse_bits, parse_array, parse_assoc_table, parse_bits, parse_blob, parse_choice, parse_frames,
    parse_optional, parse_struct, parse_u32, parse_u64, parse_u8, parse_vint, try_parse_struct,
};
use sc2replay::sc2::structs::{DataType, Events};

fn vint_string(d: &DataType) -> String {
    match d {
        DataType::VInt(i) => i.to_decimal_string(),
        other => panic!("expected an integer, got {:?}", other),
    }
}

#[test]
fn vint_positive_and_negative() {
    let (rest, (d, bits)) = parse_vint(&[0x04, 0xAA], 0).unwrap();
    assert_eq!(rest, &[0xAA][..]);
    assert_eq!(vint_string(&d), "2");
    assert_eq!(bits, 0);
    let (_, (d, _)) = parse_vint(&[0x05], 0).unwrap();
    assert_eq!(vint_string(&d), "-2");
}

#[test]
fn vint_with_continuation_bytes() {
    let (rest, (d, _)) = parse_vint(&[0x81, 0x01], 0).unwrap();
    assert!(rest.is_empty());
    assert_eq!(vint_string(&d), "-64");
    let (_, (d, _)) = parse_vint(&[0xFE, 0xFF, 0x7F], 0).unwrap();
    assert_eq!(vint_string(&d), "1048575");
}

#[test]
fn vint_larger_than_64_bits() {
    let data = [0x80, 0x80, 0x80, 0x80, 0x80, 0x80, 0x80, 0x80, 0x80, 0x80, 0x01];
    let (_, (d, _)) = parse_vint(&data, 0).unwrap();
    assert_eq!(vint_string(&d), "590295810358705651712");
}

#[test]
fn negative_zero_is_zero() {
    let (_, (d, _)) = parse_vint(&[0x01], 0).unwrap();
    assert_eq!(vint_string(&d), "0");
}

#[test]
fn vint_without_its_last_byte_fails() {
    assert!(matches!(parse_vint(&[0x80], 0), Err(ParseError::UnexpectedEnd)));
    assert!(matches!(parse_vint(&[], 0), Err(ParseError::UnexpectedEnd)));
}

#[test]
fn fixed_size_integers() {
    let (rest, (d, _)) = parse_u8(&[0x2A, 0x01], 0).unwrap();
    assert_eq!(rest, &[0x01][..]);
    assert!(matches!(d, DataType::UInt8(42)));
    let (_, (d, _)) = parse_u32(&[0x01, 0x02, 0x00, 0x00], 0).unwrap();
    assert!(matches!(d, DataType::UInt32(0x201)));
    let (_, (d, _)) = parse_u64(&[0, 0, 0, 0, 0, 0, 0, 0x80], 0).unwrap();
    assert!(matches!(d, DataType::UInt64(0x8000_0000_0000_0000)));
    assert!(matches!(parse_u32(&[1, 2, 3], 0), Err(ParseError::UnexpectedEnd)));
    assert!(matches!(parse_u8(&[], 0), Err(ParseError::UnexpectedEnd)));
}

#[test]
fn struct_dispatches_on_its_tag() {
    let (_, (d, _)) = parse_struct(&[0x06, 0x2A], 0).unwrap();
    assert!(matches!(d, DataType::UInt8(42)));
    let (_, (d, _)) = parse_struct(&[0x07, 0x01, 0x00, 0x00, 0x00], 0).unwrap();
    assert!(matches!(d, DataType::UInt32(1)));
    let (_, (d, _)) = parse_struct(&[0x08, 0x01, 0, 0, 0, 0, 0, 0, 0], 0).unwrap();
    assert!(matches!(d, DataType::UInt64(1)));
    let (_, (d, _)) = parse_struct(&[0x09, 0x04], 0).unwrap();
    assert_eq!(vint_string(&d), "2");
}

#[test]
fn blob_reads_bytes() {
    let (rest, (d, bits)) = parse_struct(&[0x02, 0x06, b'a', b'b', b'c', 0x00], 0).unwrap();
    assert_eq!(rest, &[0x00][..]);
    assert_eq!(bits, 0);
    match d {
        DataType::Blob(b) => assert_eq!(b, b"abc".to_vec()),
        other => panic!("unexpected {:?}", other),
    }
}

#[test]
fn blob_too_short_fails() {
    assert!(matches!(parse_blob(&[0x06, b'a'], 0), Err(ParseError::UnexpectedEnd)));
}

#[test]
fn array_of_values() {
    let data = [0x00, 0x04, 0x09, 0x02, 0x06, 0x07];
    let (rest, (d, bits)) = parse_struct(&data, 0).unwrap();
    assert!(rest.is_empty());
    assert_eq!(bits, 0);
    match d {
        DataType::Array(items) => {
            assert_eq!(items.len(), 2);
            assert_eq!(vint_string(&items[0]), "1");
            assert!(matches!(*items[1], DataType::UInt8(7)));
        }
        other => panic!("unexpected {:?}", other),
    }
    let (_, (d, _)) = parse_array(&data[1..], 0).unwrap();
    assert!(matches!(d, DataType::Array(ref v) if v.len() == 2));
}

#[test]
fn bits_leave_the_partial_byte() {
    let (rest, (d, bits)) = parse_struct(&[0x01, 0x0A, 0xB6], 0).unwrap();
    assert_eq!(rest, &[0xB6][..]);
    assert_eq!(bits, 3);
    match d {
        DataType::Blob(b) => assert_eq!(b, vec![5]),
        other => panic!("unexpected {:?}", other),
    }
    let (rest, (_, bits)) = parse_bits(&[0x0A, 0xB6], 0).unwrap();
    assert_eq!(rest, &[0xB6][..]);
    assert_eq!(bits, 3);
}

#[test]
fn array_skips_the_partial_byte_before_the_next_value() {
    let data = [0x00, 0x04, 0x01, 0x0A, 0xB6, 0x06, 0x07];
    let (rest, (d, bits)) = parse_struct(&data, 0).unwrap();
    assert!(rest.is_empty());
    assert_eq!(bits, 0);
    match d {
        DataType::Array(items) => {
            assert!(matches!(*items[0], DataType::Blob(ref b) if *b == vec![5]));
            assert!(matches!(*items[1], DataType::UInt8(7)));
        }
        other => panic!("unexpected {:?}", other),
    }
}

#[test]
fn unaligned_bits() {
    let (rest, (d, bits, next)) = _parse_bits(&[0xFF, 0x0F], 0, 12, 0).unwrap();
    assert_eq!(rest, &[0x0F][..]);
    assert_eq!(bits, 4);
    assert_eq!(next, 15);
    assert!(matches!(d, DataType::Blob(ref b) if *b == vec![0xFF, 0x00]));
    let (rest, (d, bits, next)) = _parse_bits(&[0xAB], 3, 7, 0b101).unwrap();
    assert_eq!(rest, &[0xAB][..]);
    assert_eq!(bits, 4);
    assert_eq!(next, 11);
    assert!(matches!(d, DataType::Blob(ref b) if *b == vec![5, 10]));
    assert!(matches!(_parse_bits(&[0xFF], 0, 16, 0), Err(ParseError::UnexpectedEnd)));
}

#[test]
fn optional_values() {
    let (rest, (d, _)) = parse_struct(&[0x04, 0x00, 0x09], 0).unwrap();
    assert_eq!(rest, &[0x09][..]);
    assert!(matches!(d, DataType::Optional(None)));
    let (_, (d, _)) = parse_struct(&[0x04, 0x01, 0x06, 0x09], 0).unwrap();
    assert!(matches!(d, DataType::UInt8(9)));
    let (_, (d, bits)) = parse_optional(&[0x00], 5).unwrap();
    assert!(matches!(d, DataType::Optional(None)));
    assert_eq!(bits, 5);
}

#[test]
fn choice_is_a_value() {
    let (_, (d, _)) = parse_struct(&[0x03, 0x06, 0x09], 0).unwrap();
    assert!(matches!(d, DataType::UInt8(9)));
    let (_, (d, _)) = parse_choice(&[0x06, 0x09], 0).unwrap();
    assert!(matches!(d, DataType::UInt8(9)));
}

#[test]
fn table_keeps_the_last_value_of_a_key() {
    let data = [0x05, 0x06, 0x02, 0x09, 0x06, 0x03, 0x06, 0x01, 0x02, 0x09, 0x0A];
    let (rest, (d, _)) = parse_struct(&data, 0).unwrap();
    assert!(rest.is_empty());
    match d {
        DataType::HashMap(kv) => {
            assert_eq!(kv.len(), 2);
            assert_eq!(kv[0].0.to_decimal_string(), "1");
            assert_eq!(vint_string(&kv[0].1), "5");
            assert_eq!(kv[1].0.to_decimal_string(), "-1");
            assert!(matches!(*kv[1].1, DataType::UInt8(1)));
        }
        other => panic!("unexpected {:?}", other),
    }
    assert!(parse_assoc_table(&data[1..], 0).is_ok());
}

#[test]
fn shifted_read_skips_a_byte() {
    let (_, (d, _)) = parse_struct(&[0xFF, 0x06, 0x2A], 3).unwrap();
    assert!(matches!(d, DataType::UInt8(42)));
}

#[test]
fn panicking_inputs_are_reported() {
    assert!(try_parse_struct(&[0x0A], 0).is_none());
    assert!(try_parse_struct(&[], 2).is_none());
    let huge = [0x02, 0x80, 0x80, 0x80, 0x80, 0x80, 0x80, 0x80, 0x80, 0x40];
    assert!(try_parse_struct(&huge, 0).is_none());
    assert!(matches!(try_parse_struct(&[0x06], 0), Some(Err(ParseError::UnexpectedEnd))));
    assert!(matches!(try_parse_struct(&[], 0), Some(Err(ParseError::UnexpectedEnd))));
    assert!(matches!(try_parse_struct(&[0x06, 0x01], 0), Some(Ok(_))));
}

#[test]
fn frames() {
    assert_eq!(parse_frames(&[0x08, 0x55]).unwrap(), (&[0x55][..], 2));
    assert_eq!(parse_frames(&[0x09, 0x01]).unwrap().1, 513);
    assert_eq!(parse_frames(&[0x0A, 0x01, 0x02]).unwrap().1, 131585);
    assert_eq!(parse_frames(&[0x0B, 0x01, 0x02, 0x03]).unwrap().1, 33685763);
    assert_eq!(parse_frames(&[0x09]), Err(ParseError::UnexpectedEnd));
    assert_eq!(parse_frames(&[]), Err(ParseError::UnexpectedEnd));
}

#[test]
fn event_numbers() {
    assert_eq!(Events::CommandEvent.to_u64(), 27);
    assert_eq!(Events::from_u64(27), Some(Events::CommandEvent));
    assert_eq!(Events::from_u64(96), Some(Events::TriggerGameCreditsFinishedEvent));
    assert_eq!(Events::from_u64(0), Some(Events::UnknownEvent));
    assert_eq!(Events::from_u64(1), None);
    assert_eq!(Events::from_u64(97), None);
    let all = [Events::FinishedLoadingSyncEvent, Events::LagMessageEvent, Events::CameraUpdateEvent];
    for e in all {
        assert_eq!(Events::from_u64(e.to_u64()), Some(e));
    }
}

#[test]
fn struct_dispatch_on_the_tag() {
    let (rest, (d, bits)) = parse_struct(&[0xFF, 0x06, 0x07, 0x09], 3).unwrap();
    assert_eq!(rest, &[0x09][..]);
    assert_eq!(bits, 0);
    assert!(matches!(d, DataType::UInt8(7)));
    let (rest2, (d2, _)) = parse_u8(&[0x07, 0x09], 0).unwrap();
    assert_eq!(rest2, rest);
    assert!(matches!(d2, DataType::UInt8(7)));
    let (_, (d, _)) = parse_struct(&[0x07, 0x01, 0x00, 0x00, 0x00], 0).unwrap();
    assert!(matches!(d, DataType::UInt32(1)));
    assert!(try_parse_struct(&[0x0A, 0x00], 0).is_none());
}

#[test]
fn nesting_height_is_bounded() {
    let leaf = DataType::UInt8(1);
    assert!(leaf.height_within(0));
    let nested = DataType::Array(vec![Box::new(DataType::Optional(Some(Box::new(DataType::UInt8(1)))))]);
    assert!(!nested.height_within(1));
    assert!(nested.height_within(2));
    let table = DataType::HashMap(vec![]);
    assert!(!table.height_within(0));
    assert!(table.height_within(1));
}

#[test]
fn tables_with_a_key_twice_are_found() {
    let ok = DataType::HashMap(vec![
        (Integer::small(1), Box::new(DataType::UInt8(1))),
        (Integer::small(2), Box::new(DataType::Array(vec![]))),
    ]);
    assert!(ok.has_distinct_tables());
    let twice = DataType::Array(vec![Box::new(DataType::HashMap(vec![
        (Integer::small(1), Box::new(DataType::UInt8(1))),
        (Integer::small(1), Box::new(DataType::UInt8(2))),
    ]))]);
    assert!(!twice.has_distinct_tables());
    let (_, (parsed, _)) = parse_struct(&[0x05, 0x04, 0x02, 0x06, 0x01, 0x02, 0x06, 0x02], 0).unwrap();
    assert!(parsed.has_distinct_tables());
}
