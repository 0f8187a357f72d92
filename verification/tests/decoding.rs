use infohash::{decode, decode_at, DecodeError, Dict, Value, MAX_DEPTH};

fn dict_of(entries: Vec<(&[u8], Value)>) -> Value {
    let mut dict = Dict::new();
    for (key, value) in entries {
        assert!(dict.try_insert(key.to_vec(), value));
    }
    Value::Dict(dict)
}

#[test]
fn empty_list_decodes() {
    assert_eq!(decode(b"le"), Ok(Value::List(vec![])));
}

#[test]
fn empty_dictionary_decodes() {
    assert_eq!(decode(b"de"), Ok(Value::Dict(Dict::new())));
}

#[test]
fn zero_decodes() {
    assert_eq!(decode(b"i0e"), Ok(Value::Integer(0)));
}

#[test]
fn empty_byte_string_decodes() {
    assert_eq!(decode(b"0:"), Ok(Value::ByteString(vec![])));
}

#[test]
fn integers_decode() {
    assert_eq!(decode(b"i42e"), Ok(Value::Integer(42)));
    assert_eq!(decode(b"i-42e"), Ok(Value::Integer(-42)));
    assert_eq!(decode(b"i12345e"), Ok(Value::Integer(12345)));
    assert_eq!(decode(b"i9223372036854775807e"), Ok(Value::Integer(i64::MAX)));
    assert_eq!(decode(b"i-9223372036854775808e"), Ok(Value::Integer(i64::MIN)));
}

#[test]
fn integer_without_digits_is_rejected() {
    assert_eq!(decode(b"i e"), Err(DecodeError::InvalidInteger));
    assert_eq!(decode(b"ie"), Err(DecodeError::InvalidInteger));
    assert_eq!(decode(b"i-e"), Err(DecodeError::InvalidInteger));
}

#[test]
fn integer_with_leading_zero_is_rejected() {
    assert_eq!(decode(b"i01e"), Err(DecodeError::InvalidInteger));
    assert_eq!(decode(b"i00e"), Err(DecodeError::InvalidInteger));
    assert_eq!(decode(b"i-01e"), Err(DecodeError::InvalidInteger));
}

#[test]
fn negative_zero_is_rejected() {
    assert_eq!(decode(b"i-0e"), Err(DecodeError::InvalidInteger));
}

#[test]
fn integer_with_stray_byte_is_rejected() {
    assert_eq!(decode(b"i1x2e"), Err(DecodeError::InvalidInteger));
    assert_eq!(decode(b"i+5e"), Err(DecodeError::InvalidInteger));
    assert_eq!(decode(b"i--5e"), Err(DecodeError::InvalidInteger));
}

#[test]
fn integer_out_of_range_is_rejected() {
    assert_eq!(decode(b"i9223372036854775808e"), Err(DecodeError::InvalidInteger));
    assert_eq!(decode(b"i-9223372036854775809e"), Err(DecodeError::InvalidInteger));
    assert_eq!(decode(b"i18446744073709551616e"), Err(DecodeError::InvalidInteger));
    assert_eq!(
        decode(b"i100000000000000000000000000000000000000e"),
        Err(DecodeError::InvalidInteger)
    );
}

#[test]
fn integer_without_end_is_truncated() {
    assert_eq!(decode(b"i"), Err(DecodeError::Truncated));
    assert_eq!(decode(b"i12"), Err(DecodeError::Truncated));
    assert_eq!(decode(b"i-"), Err(DecodeError::Truncated));
}

#[test]
fn byte_strings_decode() {
    assert_eq!(decode(b"3:abc"), Ok(Value::ByteString(b"abc".to_vec())));
    assert_eq!(
        decode(b"10:0123456789"),
        Ok(Value::ByteString(b"0123456789".to_vec()))
    );
    assert_eq!(
        decode(&[b'2', b':', 0xff, 0x00]),
        Ok(Value::ByteString(vec![0xff, 0x00]))
    );
}

#[test]
fn short_byte_string_is_truncated() {
    assert_eq!(decode(b"5:ab"), Err(DecodeError::Truncated));
    assert_eq!(decode(b"1:"), Err(DecodeError::Truncated));
    assert_eq!(decode(b"12"), Err(DecodeError::Truncated));
}

#[test]
fn huge_length_is_truncated() {
    assert_eq!(
        decode(b"99999999999999999999999999999999:a"),
        Err(DecodeError::Truncated)
    );
    assert_eq!(decode(b"18446744073709551615:a"), Err(DecodeError::Truncated));
}

#[test]
fn malformed_length_is_rejected() {
    assert_eq!(decode(b"01:a"), Err(DecodeError::InvalidLength));
    assert_eq!(decode(b"00:"), Err(DecodeError::InvalidLength));
    assert_eq!(decode(b"1x:a"), Err(DecodeError::InvalidLength));
    assert_eq!(decode(b"3abc"), Err(DecodeError::InvalidLength));
}

#[test]
fn empty_input_is_truncated() {
    assert_eq!(decode(b""), Err(DecodeError::Truncated));
}

#[test]
fn unknown_leading_byte_is_rejected() {
    assert_eq!(decode(b"x"), Err(DecodeError::UnexpectedByte));
    assert_eq!(decode(b"e"), Err(DecodeError::UnexpectedByte));
    assert_eq!(decode(b":"), Err(DecodeError::UnexpectedByte));
    assert_eq!(decode(b"-1"), Err(DecodeError::UnexpectedByte));
    assert_eq!(decode(b"lxe"), Err(DecodeError::UnexpectedByte));
    assert_eq!(decode(b"dxe"), Err(DecodeError::UnexpectedByte));
}

#[test]
fn lists_decode() {
    assert_eq!(
        decode(b"li1e3:abclee"),
        Ok(Value::List(vec![
            Value::Integer(1),
            Value::ByteString(b"abc".to_vec()),
            Value::List(vec![]),
        ]))
    );
}

#[test]
fn unterminated_list_is_rejected() {
    assert_eq!(decode(b"l"), Err(DecodeError::Unterminated));
    assert_eq!(decode(b"li1e"), Err(DecodeError::Unterminated));
    assert_eq!(decode(b"lli1ee"), Err(DecodeError::Unterminated));
}

#[test]
fn unterminated_dictionary_is_rejected() {
    assert_eq!(decode(b"d3:foo"), Err(DecodeError::Unterminated));
    assert_eq!(decode(b"d"), Err(DecodeError::Unterminated));
    assert_eq!(decode(b"d3:fooi1e"), Err(DecodeError::Unterminated));
}

#[test]
fn dictionary_value_may_not_be_missing() {
    assert_eq!(decode(b"d3:fooe"), Err(DecodeError::UnexpectedByte));
}

#[test]
fn dictionaries_decode() {
    assert_eq!(
        decode(b"d3:bari1e3:foo3:baze"),
        Ok(dict_of(vec![
            (b"bar", Value::Integer(1)),
            (b"foo", Value::ByteString(b"baz".to_vec())),
        ]))
    );
}

#[test]
fn dictionary_keys_may_come_in_any_order() {
    let sorted = decode(b"d1:ai1e1:bi2e1:ci3ee");
    assert!(sorted.is_ok());
    assert_eq!(decode(b"d1:ci3e1:ai1e1:bi2ee"), sorted);
    assert_eq!(decode(b"d1:bi2e1:ci3e1:ai1ee"), sorted);
}

#[test]
fn entries_are_held_in_key_order() {
    match decode(b"d2:zzi1e1:zi2e0:i3e2:aai4ee") {
        Ok(Value::Dict(dict)) => {
            assert_eq!(dict.len(), 4);
            assert_eq!(dict.key_at(0).as_slice(), b"");
            assert_eq!(dict.key_at(1).as_slice(), b"aa");
            assert_eq!(dict.key_at(2).as_slice(), b"z");
            assert_eq!(dict.key_at(3).as_slice(), b"zz");
            assert_eq!(dict.value_at(0), &Value::Integer(3));
            assert_eq!(dict.value_at(3), &Value::Integer(1));
        }
        other => panic!("not a dictionary: {:?}", other),
    }
}

#[test]
fn duplicate_key_is_rejected() {
    assert_eq!(decode(b"d1:ai1e1:ai2ee"), Err(DecodeError::DuplicateKey));
    assert_eq!(decode(b"d1:ai1e1:bi2e1:ai1ee"), Err(DecodeError::DuplicateKey));
}

#[test]
fn key_must_be_a_byte_string() {
    assert_eq!(decode(b"di1ei2ee"), Err(DecodeError::NonStringKey));
    assert_eq!(decode(b"dlei2ee"), Err(DecodeError::NonStringKey));
    assert_eq!(decode(b"ddei2ee"), Err(DecodeError::NonStringKey));
}

#[test]
fn bytes_behind_the_value_are_not_looked_at() {
    assert_eq!(decode(b"i1ei2e"), Ok(Value::Integer(1)));
    assert_eq!(decode(b"lee"), Ok(Value::List(vec![])));
    assert_eq!(decode(b"0:x"), Ok(Value::ByteString(vec![])));
    assert_eq!(decode(b"i1e\xff"), Ok(Value::Integer(1)));
    assert_eq!(decode_at(b"i1ei2e", 0), Ok((Value::Integer(1), 3)));
}

#[test]
fn nesting_is_limited() {
    let mut deepest = vec![b'l'; MAX_DEPTH];
    deepest.extend(vec![b'e'; MAX_DEPTH]);
    assert!(decode(&deepest).is_ok());

    let mut too_deep = vec![b'l'; MAX_DEPTH + 1];
    too_deep.extend(vec![b'e'; MAX_DEPTH + 1]);
    assert_eq!(decode(&too_deep), Err(DecodeError::DepthExceeded));

    let mut dicts = Vec::new();
    for _ in 0..MAX_DEPTH + 1 {
        dicts.extend_from_slice(b"d1:a");
    }
    assert_eq!(decode(&dicts), Err(DecodeError::DepthExceeded));
}

#[test]
fn very_deep_input_does_not_overflow_the_stack() {
    let deep = vec![b'l'; 1_000_000];
    assert_eq!(decode(&deep), Err(DecodeError::DepthExceeded));
}

#[test]
fn scalars_fit_the_deepest_level() {
    let mut document = vec![b'l'; MAX_DEPTH];
    document.extend_from_slice(b"i7e");
    document.extend(vec![b'e'; MAX_DEPTH]);
    assert!(decode(&document).is_ok());
}

#[test]
fn decode_at_reports_the_bytes_used() {
    let bytes = b"i1e3:abcle";
    assert_eq!(decode_at(bytes, 0), Ok((Value::Integer(1), 3)));
    assert_eq!(
        decode_at(bytes, 3),
        Ok((Value::ByteString(b"abc".to_vec()), 5))
    );
    assert_eq!(decode_at(bytes, 8), Ok((Value::List(vec![]), 2)));
    assert_eq!(decode_at(bytes, 10), Err(DecodeError::Truncated));
    assert_eq!(decode_at(bytes, 11), Err(DecodeError::Truncated));
    assert_eq!(decode_at(bytes, 9), Err(DecodeError::UnexpectedByte));
}

#[test]
fn metainfo_document_decodes() {
    // The `e` behind `abc` closes `info`, so `length` is an entry of the
    // document itself, and the last `e` stands behind the document.
    let bytes = b"d4:infod4:name3:abce6:lengthi12345eee";
    let info = dict_of(vec![(b"name", Value::ByteString(b"abc".to_vec()))]);
    let document = dict_of(vec![(b"info", info), (b"length", Value::Integer(12345))]);
    assert_eq!(decode_at(bytes, 0), Ok((document, bytes.len() - 1)));
    match decode(bytes) {
        Ok(Value::Dict(top)) => match top.get(b"info") {
            Some(Value::Dict(info)) => {
                assert_eq!(info.get(b"name"), Some(&Value::ByteString(b"abc".to_vec())));
                assert_eq!(info.get(b"length"), None);
                assert_eq!(top.get(b"length"), Some(&Value::Integer(12345)));
            }
            other => panic!("info is no dictionary: {:?}", other),
        },
        other => panic!("not a dictionary: {:?}", other),
    }
}

#[test]
fn metainfo_document_with_length_inside_info_decodes() {
    let info = dict_of(vec![
        (b"name", Value::ByteString(b"abc".to_vec())),
        (b"length", Value::Integer(12345)),
    ]);
    let expected = dict_of(vec![(b"info", info)]);
    assert_eq!(decode(b"d4:infod4:name3:abc6:lengthi12345eee"), Ok(expected));
}
