use infohash::{decode, extract_identity, ContentId, Dict, Metainfo, MetainfoError, Value};
use sha1::{Digest, Sha1};

fn bytes(text: &str) -> Value {
    Value::ByteString(text.as_bytes().to_vec())
}

fn dictionary(entries: Vec<(&str, Value)>) -> Value {
    let mut dict = Dict::new();
    for (key, value) in entries {
        assert!(dict.try_insert(key.as_bytes().to_vec(), value));
    }
    Value::Dict(dict)
}

#[test]
fn identity_of_the_sample_document() {
    // In these bytes `info` holds the name alone: the `e` behind `abc`
    // closes it.
    let document = decode(b"d4:infod4:name3:abce6:lengthi12345eee").unwrap();
    let (name, id) = extract_identity(&document).unwrap();
    assert_eq!(name, "abc");
    assert_eq!(id, "0c3b1833b425f70628722acc387340ffe0214cf5");
    assert_eq!(id, hex::encode(Sha1::digest(b"d4:name3:abce")));
}

#[test]
fn identity_of_a_document_with_length_inside_info() {
    let document = decode(b"d4:infod4:name3:abc6:lengthi12345eee").unwrap();
    let (name, id) = extract_identity(&document).unwrap();
    assert_eq!(name, "abc");
    assert_eq!(id, "cdbef1cfd8a1833f01087042b389a7f3fbd8d9c1");
    // The digest is taken over the canonical form of
    // `d4:name3:abc6:lengthi12345ee`, in which `length` comes first.
    let info = decode(b"d4:name3:abc6:lengthi12345ee").unwrap();
    let canonical = infohash::encode(&info);
    assert_eq!(canonical, b"d6:lengthi12345e4:name3:abce".to_vec());
    assert_eq!(id, hex::encode(Sha1::digest(&canonical)));
}

#[test]
fn list_is_not_a_metainfo_document() {
    assert_eq!(extract_identity(&Value::List(vec![])), Err(MetainfoError::NotADict));
    let decoded = decode(b"l4:infoe").unwrap();
    assert_eq!(extract_identity(&decoded), Err(MetainfoError::NotADict));
}

#[test]
fn scalars_are_not_metainfo_documents() {
    assert_eq!(extract_identity(&Value::Integer(1)), Err(MetainfoError::NotADict));
    assert_eq!(extract_identity(&bytes("info")), Err(MetainfoError::NotADict));
}

#[test]
fn info_must_be_present() {
    assert_eq!(extract_identity(&Value::Dict(Dict::new())), Err(MetainfoError::MissingInfo));
    let document = dictionary(vec![("name", bytes("abc")), ("inf", Value::Dict(Dict::new()))]);
    assert_eq!(extract_identity(&document), Err(MetainfoError::MissingInfo));
}

#[test]
fn info_must_be_a_dictionary() {
    let document = dictionary(vec![("info", bytes("abc"))]);
    assert_eq!(extract_identity(&document), Err(MetainfoError::InfoNotADict));
    let document = dictionary(vec![("info", Value::List(vec![]))]);
    assert_eq!(extract_identity(&document), Err(MetainfoError::InfoNotADict));
}

#[test]
fn name_must_be_present() {
    let document = dictionary(vec![("info", dictionary(vec![("length", Value::Integer(1))]))]);
    assert_eq!(extract_identity(&document), Err(MetainfoError::MissingName));
    // A name beside `info` does not count.
    let document = dictionary(vec![("info", Value::Dict(Dict::new())), ("name", bytes("abc"))]);
    assert_eq!(extract_identity(&document), Err(MetainfoError::MissingName));
}

#[test]
fn name_must_be_a_byte_string() {
    let document = dictionary(vec![("info", dictionary(vec![("name", Value::Integer(1))]))]);
    assert_eq!(extract_identity(&document), Err(MetainfoError::NameNotByteString));
}

#[test]
fn entries_beside_info_do_not_change_the_identifier() {
    let plain = decode(b"d4:infod6:lengthi5e4:name1:xee").unwrap();
    let dressed = decode(b"d8:announce3:url4:infod6:lengthi5e4:name1:xe5:zzzzzi1ee").unwrap();
    let reordered = decode(b"d5:zzzzzi1e4:infod4:name1:x6:lengthi5ee8:announce3:urle").unwrap();
    let expected = extract_identity(&plain).unwrap();
    assert_eq!(expected.1, hex::encode(Sha1::digest(b"d6:lengthi5e4:name1:xe")));
    assert_eq!(extract_identity(&dressed).unwrap(), expected);
    assert_eq!(extract_identity(&reordered).unwrap(), expected);
}

#[test]
fn a_change_inside_info_changes_the_identifier() {
    let one = decode(b"d4:infod6:lengthi5e4:name1:xee").unwrap();
    let other = decode(b"d4:infod6:lengthi6e4:name1:xee").unwrap();
    let renamed = decode(b"d4:infod6:lengthi5e4:name1:yee").unwrap();
    let id = extract_identity(&one).unwrap().1;
    assert_ne!(extract_identity(&other).unwrap().1, id);
    assert_ne!(extract_identity(&renamed).unwrap().1, id);
}

#[test]
fn name_that_is_not_utf8_is_shown_with_replacements() {
    let mut document = b"d4:infod4:name3:a".to_vec();
    document.extend_from_slice(&[0xff, b'b']);
    document.extend_from_slice(b"ee");
    let value = decode(&document).unwrap();
    let (name, id) = extract_identity(&value).unwrap();
    assert_eq!(name, "a\u{fffd}b");
    let mut canonical = b"d4:name3:a".to_vec();
    canonical.extend_from_slice(&[0xff, b'b', b'e']);
    assert_eq!(id, hex::encode(Sha1::digest(&canonical)));
}

#[test]
fn name_in_utf8_is_shown_as_it_is() {
    let text = "f\u{fc}r \u{4e16}\u{754c}";
    let document = dictionary(vec![("info", dictionary(vec![("name", bytes(text))]))]);
    assert_eq!(extract_identity(&document).unwrap().0, text);
}

#[test]
fn metainfo_gives_the_parts() {
    let document = decode(b"d4:infod4:name3:abc6:lengthi12345eee").unwrap();
    let metainfo = Metainfo::from_value(&document).ok().unwrap();
    assert_eq!(metainfo.name().as_slice(), b"abc");
    assert_eq!(metainfo.display_name(), "abc");
    assert_eq!(metainfo.canonical_info(), b"d6:lengthi12345e4:name3:abce".to_vec());
    let id = metainfo.content_id().unwrap();
    assert_eq!(id.to_hex(), "cdbef1cfd8a1833f01087042b389a7f3fbd8d9c1");
}

#[test]
fn metainfo_reports_what_is_missing() {
    assert_eq!(Metainfo::from_value(&Value::Integer(0)).err(), Some(MetainfoError::NotADict));
    assert_eq!(
        Metainfo::from_value(&Value::Dict(Dict::new())).err(),
        Some(MetainfoError::MissingInfo)
    );
}

#[test]
fn content_id_is_the_sha1_digest() {
    let id = ContentId::of(b"").unwrap();
    assert_eq!(id.to_hex(), "da39a3ee5e6b4b0d3255bfef95601890afd80709");
    let id = ContentId::of(b"hello world").unwrap();
    assert_eq!(id.to_hex(), "2aae6c35c94fcfb415dbe95f408b9ce91ee846ed");
    assert_eq!(id.digest[0], 0x2a);
    assert_eq!(id.digest[19], 0xed);
}

#[test]
fn hexadecimal_form_is_lower_case_with_two_digits_a_byte() {
    let mut digest = [0u8; 20];
    digest[0] = 0x0f;
    digest[1] = 0xf0;
    digest[2] = 0xab;
    digest[19] = 0x01;
    let id = ContentId { digest };
    assert_eq!(id.to_hex(), "0ff0ab0000000000000000000000000000000001");
    assert_eq!(id.to_hex().len(), 40);
}
