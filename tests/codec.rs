use crab::object::{Key, Object, ObjectError, ObjectKind};
use crab::types::{Int, Link, List, ListBuilder, MapBuilder, Mapping, Null, Text};

fn int_bytes(v: i64) -> Vec<u8> {
    let mut b = vec![1u8];
    b.extend_from_slice(&v.to_be_bytes());
    b
}

#[test]
fn key_decodes_and_encodes_back() {
    let bytes = [0u8, 1, b'a', 9, 9];
    let (key, rest) = Key::new(&bytes).unwrap();
    assert_eq!(key.as_bytes(), b"a");
    assert_eq!(rest, &[9u8, 9]);
    assert_eq!(key.to_bytes(), vec![0u8, 1, b'a']);
}

#[test]
fn key_round_trip_longest() {
    let raw = vec![7u8; 65535];
    let key = Key::from_slice(&raw).unwrap();
    let enc = key.to_bytes();
    assert_eq!(&enc[..2], &[0xFFu8, 0xFF]);
    let (back, rest) = Key::new(&enc).unwrap();
    assert_eq!(back.as_bytes(), &raw[..]);
    assert!(rest.is_empty());
}

#[test]
fn key_errors() {
    assert_eq!(Key::new(&[]).unwrap_err(), ObjectError::Incomplete);
    assert_eq!(Key::new(&[0]).unwrap_err(), ObjectError::Incomplete);
    assert_eq!(Key::new(&[0, 0, 1]).unwrap_err(), ObjectError::MalformedData);
    assert_eq!(Key::new(&[0, 5, b'a']).unwrap_err(), ObjectError::Incomplete);
    assert_eq!(Key::from_slice(&[]).unwrap_err(), ObjectError::MalformedData);
    assert_eq!(Key::from_slice(&vec![1u8; 65536]).unwrap_err(), ObjectError::MalformedData);
}

#[test]
fn decode_then_encode_gives_consumed_bytes() {
    let mut bytes = int_bytes(42);
    bytes.extend_from_slice(&[0xAA, 0xBB]);
    let (obj, rest) = Object::deserialize(&bytes).unwrap();
    assert_eq!(obj.kind(), ObjectKind::Int);
    assert_eq!(rest, &[0xAAu8, 0xBB]);
    assert_eq!(obj.serialize(), bytes[..bytes.len() - rest.len()].to_vec());
}

#[test]
fn object_errors() {
    assert_eq!(Object::deserialize(&[]).unwrap_err(), ObjectError::Incomplete);
    assert_eq!(Object::deserialize(&[6]).unwrap_err(), ObjectError::MalformedData);
    assert_eq!(Object::deserialize(&[1, 0, 0]).unwrap_err(), ObjectError::Incomplete);
    assert_eq!(Object::deserialize(&[2, 0, 2, 0xC3, 0x28]).unwrap_err(), ObjectError::MalformedData);
    assert_eq!(Object::deserialize(&[2, 0, 3, b'a']).unwrap_err(), ObjectError::Incomplete);
    assert_eq!(Object::deserialize(&[5, 0, 0]).unwrap_err(), ObjectError::MalformedData);
    // a list that declares more elements than the bytes hold
    assert_eq!(Object::deserialize(&[3, 0xFF, 0xFF, 0]).unwrap_err(), ObjectError::Incomplete);
    // a map whose field name is not UTF-8
    assert_eq!(
        Object::deserialize(&[4, 0, 1, 0, 1, 0xFF, 0]).unwrap_err(),
        ObjectError::MalformedData
    );
}

#[test]
fn text_accepts_utf8() {
    let bytes = [2u8, 0, 2, 0xC3, 0xA9];
    let (obj, rest) = Object::deserialize(&bytes).unwrap();
    assert!(rest.is_empty());
    let t = Text::from_object(&obj).unwrap();
    assert_eq!(t.as_bytes(), "é".as_bytes());
    let t2 = Text::new("hello");
    assert_eq!(t2.into_object().serialize(), vec![2u8, 0, 5, b'h', b'e', b'l', b'l', b'o']);
}

#[test]
fn validators_split_payloads() {
    let (c, r) = Null::validate_and_extract(&[1, 2]).unwrap();
    assert!(c.is_empty());
    assert_eq!(r, &[1u8, 2]);
    let (c, r) = Int::validate_and_extract(&[0, 0, 0, 0, 0, 0, 0, 7, 1]).unwrap();
    assert_eq!(c.len(), 8);
    assert_eq!(r, &[1u8]);
    let (c, r) = Text::validate_and_extract(&[0, 1, b'z', 3]).unwrap();
    assert_eq!(c, &[0u8, 1, b'z']);
    assert_eq!(r, &[3u8]);
    let (c, r) = Link::validate_and_extract(&[0, 1, b'k']).unwrap();
    assert_eq!(c, &[0u8, 1, b'k']);
    assert!(r.is_empty());
    let (c, r) = List::validate_and_extract(&[0, 1, 0, 4]).unwrap();
    assert_eq!(c, &[0u8, 1, 0]);
    assert_eq!(r, &[4u8]);
    let (c, r) = Mapping::validate_and_extract(&[0, 1, 0, 1, b'n', 0]).unwrap();
    assert_eq!(c, &[0u8, 1, 0, 1, b'n', 0]);
    assert!(r.is_empty());
    assert_eq!(Int::validate_and_extract(&[0; 7]).unwrap_err(), ObjectError::Incomplete);
}

#[test]
fn int_views() {
    let o = Int::new_object(-5);
    assert_eq!(o.serialize(), int_bytes(-5));
    assert_eq!(Int::from_object(&o).unwrap().inner(), -5);
    assert_eq!(Int::new(42).serialize(), 42i64.to_be_bytes().to_vec());
    let (i, rest) = Int::deserialize(&[0, 0, 0, 0, 0, 0, 1, 0, 5]).unwrap();
    assert_eq!(i.inner(), 256);
    assert_eq!(rest, &[5u8]);
    assert_eq!(Int::from_object(&Object::null()).unwrap_err(), ObjectError::MalformedData);
    assert_eq!(Int::new(i64::MIN).into_object().serialize(), int_bytes(i64::MIN));
}

#[test]
fn built_list_round_trips() {
    let mut b = ListBuilder::new(0);
    b.add_item(Int::new_object(1));
    b.add_item(Text::new("hi").into_object());
    b.add_item(Object::null());
    let list = b.build();
    assert_eq!(list.len(), 3);
    let obj = list.into_object();
    let bytes = obj.serialize();
    let mut expected = vec![3u8, 0, 3];
    expected.extend(int_bytes(1));
    expected.extend([2u8, 0, 2, b'h', b'i']);
    expected.push(0);
    assert_eq!(bytes, expected);
    let (back, rest) = Object::deserialize(&bytes).unwrap();
    assert!(rest.is_empty());
    assert_eq!(back.serialize(), bytes);
    let mut it = List::from_object(&back).unwrap().iter();
    assert_eq!(it.next().unwrap().serialize(), int_bytes(1));
    assert_eq!(it.next().unwrap().kind(), ObjectKind::Text);
    assert_eq!(it.next().unwrap().kind(), ObjectKind::Null);
    assert!(it.next().is_none());
}

#[test]
fn built_map_round_trips() {
    let mut b = MapBuilder::new(0);
    b.add_field(b"b", Int::new_object(2));
    b.add_field(b"a", Int::new_object(1));
    let map = b.build();
    assert_eq!(map.num_fields(), 2);
    let obj = map.into_object();
    let bytes = obj.serialize();
    let (back, rest) = Object::deserialize(&bytes).unwrap();
    assert!(rest.is_empty());
    assert_eq!(back.serialize(), bytes);
    let mut it = Mapping::from_object(&back).unwrap().iter();
    let (n1, v1) = it.next().unwrap();
    assert_eq!(n1, b"b".to_vec());
    assert_eq!(v1.serialize(), int_bytes(2));
    let (n2, _) = it.next().unwrap();
    assert_eq!(n2, b"a".to_vec());
    assert!(it.next().is_none());
}

#[test]
fn builder_without_increment_keeps_declared_count() {
    let mut b = ListBuilder::new(1);
    b.add_item_no_increment(Object::null());
    let obj = b.build().into_object();
    assert_eq!(obj.serialize(), vec![3u8, 0, 1, 0]);
    let mut m = MapBuilder::new(1);
    m.add_field_no_increment(b"x", Object::null());
    assert_eq!(m.build().into_object().serialize(), vec![4u8, 0, 1, 0, 1, b'x', 0]);
}

#[test]
fn link_views() {
    let key = Key::from_slice(b"target").unwrap();
    let obj = Link::new(key).into_object();
    assert_eq!(obj.serialize(), vec![5u8, 0, 6, b't', b'a', b'r', b'g', b'e', b't']);
    let l = Link::from_object(&obj).unwrap();
    assert_eq!(l.key().as_bytes(), b"target");
    assert_eq!(Link::from_object(&Int::new_object(0)).unwrap_err(), ObjectError::MalformedData);
}

#[test]
fn object_kind_tags() {
    assert_eq!(ObjectKind::Mapping.tag(), 4);
    assert_eq!(ObjectKind::try_from_tag(5).unwrap(), ObjectKind::Link);
    assert_eq!(ObjectKind::try_from_tag(9).unwrap_err(), ObjectError::MalformedData);
    assert_eq!(Object::null().data(), &[] as &[u8]);
}

#[test]
fn null_and_option_views() {
    assert!(Null::from_object(&Object::null()).is_ok());
    assert_eq!(Null::from_object(&Int::new_object(1)).unwrap_err(), ObjectError::MalformedData);
    assert_eq!(Object::from_option(None).serialize(), vec![0u8]);
    assert_eq!(Object::from_option(Some(Int::new_object(2))).serialize(), int_bytes(2));
}
