use infohash::lex::{rank, Rank};
use infohash::decimal::{scan_digits, write_decimal};
use infohash::{Dict, Value};

#[test]
fn byte_strings_are_ranked_lexicographically() {
    assert_eq!(rank(b"", b""), Rank::Same);
    assert_eq!(rank(b"abc", b"abc"), Rank::Same);
    assert_eq!(rank(b"", b"a"), Rank::Before);
    assert_eq!(rank(b"a", b""), Rank::After);
    assert_eq!(rank(b"ab", b"abc"), Rank::Before);
    assert_eq!(rank(b"abd", b"abc"), Rank::After);
    assert_eq!(rank(b"b", b"abc"), Rank::After);
    assert_eq!(rank(&[0x7f], &[0x80]), Rank::Before);
    assert_eq!(rank(&[0xff], &[0x00, 0x00]), Rank::After);
}

#[test]
fn new_dictionary_is_empty() {
    let dict = Dict::new();
    assert_eq!(dict.len(), 0);
    assert_eq!(dict.get(b"a"), None);
}

#[test]
fn entries_are_found_by_key() {
    let mut dict = Dict::new();
    assert!(dict.try_insert(b"b".to_vec(), Value::Integer(2)));
    assert!(dict.try_insert(b"a".to_vec(), Value::Integer(1)));
    assert!(dict.try_insert(b"c".to_vec(), Value::Integer(3)));
    assert_eq!(dict.len(), 3);
    assert_eq!(dict.get(b"a"), Some(&Value::Integer(1)));
    assert_eq!(dict.get(b"b"), Some(&Value::Integer(2)));
    assert_eq!(dict.get(b"c"), Some(&Value::Integer(3)));
    assert_eq!(dict.get(b"d"), None);
    assert_eq!(dict.get(b""), None);
}

#[test]
fn held_key_is_not_replaced() {
    let mut dict = Dict::new();
    assert!(dict.try_insert(b"a".to_vec(), Value::Integer(1)));
    assert!(!dict.try_insert(b"a".to_vec(), Value::Integer(2)));
    assert_eq!(dict.len(), 1);
    assert_eq!(dict.get(b"a"), Some(&Value::Integer(1)));
}

#[test]
fn order_of_insertion_does_not_matter() {
    let keys: [&[u8]; 5] = [b"m", b"", b"zz", b"a", b"mm"];
    let mut forward = Dict::new();
    for key in keys.iter() {
        assert!(forward.try_insert(key.to_vec(), Value::ByteString(key.to_vec())));
    }
    let mut backward = Dict::new();
    for key in keys.iter().rev() {
        assert!(backward.try_insert(key.to_vec(), Value::ByteString(key.to_vec())));
    }
    assert_eq!(forward, backward);
    let sorted: [&[u8]; 5] = [b"", b"a", b"m", b"mm", b"zz"];
    for (i, key) in sorted.iter().enumerate() {
        assert_eq!(forward.key_at(i).as_slice(), *key);
        assert_eq!(forward.value_at(i), &Value::ByteString(key.to_vec()));
    }
}

#[test]
fn digits_are_scanned_to_their_end() {
    assert_eq!(scan_digits(b"123:abc", 0), (3, Some(123)));
    assert_eq!(scan_digits(b"i123e", 1), (4, Some(123)));
    assert_eq!(scan_digits(b"abc", 0), (0, Some(0)));
    assert_eq!(scan_digits(b"007", 0), (3, Some(7)));
    assert_eq!(scan_digits(b"12", 2), (2, Some(0)));
    assert_eq!(scan_digits(b"18446744073709551615", 0), (20, Some(u64::MAX)));
    assert_eq!(scan_digits(b"18446744073709551616", 0), (20, None));
    assert_eq!(scan_digits(b"99999999999999999999999x", 0), (23, None));
}

#[test]
fn numerals_are_written_without_leading_zeros() {
    let mut out = Vec::new();
    write_decimal(0, &mut out);
    out.push(b' ');
    write_decimal(9, &mut out);
    out.push(b' ');
    write_decimal(10, &mut out);
    out.push(b' ');
    write_decimal(1002003, &mut out);
    out.push(b' ');
    write_decimal(u64::MAX, &mut out);
    assert_eq!(out, b"0 9 10 1002003 18446744073709551615".to_vec());
}
