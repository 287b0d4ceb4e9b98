use crab::link_resolver::LinkResolver;
use crab::object::{Key, Object, ObjectError};
use crab::server::{
    encode_response, error_response, parse_request, Command, CommandError, GetParams,
    LinkResolution,
};
use crab::storage::InMemoryStore;
use crab::types::{Int, Link, ListBuilder};

fn int_bytes(v: i64) -> Vec<u8> {
    let mut b = vec![1u8];
    b.extend_from_slice(&v.to_be_bytes());
    b
}

fn frame(payload: &[u8]) -> Vec<u8> {
    let mut out = (payload.len() as u64).to_be_bytes().to_vec();
    out.extend_from_slice(payload);
    out
}

/// Handles one request payload against `store` as the server does; `None`
/// for close.
fn handle(store: &mut InMemoryStore, payload: &[u8]) -> Option<Vec<u8>> {
    let command = match parse_request(payload) {
        Ok(c) => c,
        Err(_) => return Some(error_response()),
    };
    let result = match command {
        Command::Get(key, params) => {
            let object = store.retrieve(&key).unwrap();
            match params.link_resolution {
                Some(lr) => LinkResolver::new(lr, store).resolve(object),
                None => Ok(object),
            }
        }
        Command::Put(key, object) => store.store(key, object, 1),
        Command::Delete(key) => store.remove(&key),
        Command::Close => return None,
    };
    Some(match result {
        Ok(o) => encode_response(&o),
        Err(_) => error_response(),
    })
}

fn set_payload(k: &str, object: &[u8]) -> Vec<u8> {
    let mut p = vec![1u8, 0, k.len() as u8];
    p.extend_from_slice(k.as_bytes());
    p.extend_from_slice(object);
    p
}

fn get_payload(k: &str, depth: Option<u8>) -> Vec<u8> {
    let mut p = vec![0u8, 0, k.len() as u8];
    p.extend_from_slice(k.as_bytes());
    if let Some(d) = depth {
        p.extend_from_slice(&[1, 1, d]);
    }
    p
}

#[test]
fn empty_get() {
    let request = [0u8, 0, 0, 0, 0, 0, 0, 4, 0, 0, 1, b'a'];
    let len = u64::from_be_bytes(request[..8].try_into().unwrap()) as usize;
    assert_eq!(len, 4);
    let mut store = InMemoryStore::new(4);
    let response = handle(&mut store, &request[8..8 + len]).unwrap();
    assert_eq!(response, vec![0u8, 0, 0, 0, 0, 0, 0, 1, 0]);
}

#[test]
fn set_then_get() {
    let mut store = InMemoryStore::new(4);
    let set = [1u8, 0, 1, b'x', 1, 0, 0, 0, 0, 0, 0, 0, 0x2A];
    assert_eq!(handle(&mut store, &set).unwrap(), frame(&[0]));
    let get = [0u8, 0, 1, b'x'];
    assert_eq!(handle(&mut store, &get).unwrap(), frame(&[1, 0, 0, 0, 0, 0, 0, 0, 0x2A]));
}

#[test]
fn delete_returns_prior() {
    let mut store = InMemoryStore::new(4);
    let set = [1u8, 0, 1, b'x', 1, 0, 0, 0, 0, 0, 0, 0, 0x2A];
    handle(&mut store, &set).unwrap();
    let del = [2u8, 0, 1, b'x'];
    assert_eq!(handle(&mut store, &del).unwrap(), frame(&[1, 0, 0, 0, 0, 0, 0, 0, 0x2A]));
    assert_eq!(handle(&mut store, &[0u8, 0, 1, b'x']).unwrap(), frame(&[0]));
}

#[test]
fn cycle_terminates_as_link() {
    let mut store = InMemoryStore::new(4);
    handle(&mut store, &set_payload("a", &[5, 0, 1, b'b'])).unwrap();
    handle(&mut store, &set_payload("b", &[5, 0, 1, b'a'])).unwrap();
    let response = handle(&mut store, &get_payload("a", Some(10))).unwrap();
    assert_eq!(response[8], 5);
    assert_eq!(response, frame(&[5, 0, 1, b'b']));
}

#[test]
fn list_of_links_resolves() {
    let mut store = InMemoryStore::new(4);
    handle(&mut store, &set_payload("n", &int_bytes(1))).unwrap();
    let mut list = vec![3u8, 0, 2];
    list.extend([5u8, 0, 1, b'n']);
    list.extend([5u8, 0, 1, b'n']);
    handle(&mut store, &set_payload("l", &list)).unwrap();
    let response = handle(&mut store, &get_payload("l", Some(1))).unwrap();
    let mut expected = vec![3u8, 0, 2];
    expected.extend(int_bytes(1));
    expected.extend(int_bytes(1));
    assert_eq!(response, frame(&expected));
    // without the parameter the links stay
    assert_eq!(handle(&mut store, &get_payload("l", None)).unwrap(), frame(&list));
}

#[test]
fn protocol_errors() {
    let mut store = InMemoryStore::new(1);
    assert_eq!(handle(&mut store, &[7u8]).unwrap(), vec![0u8, 0, 0, 0, 0, 0, 0, 1, 0xFF]);
    assert_eq!(error_response(), vec![0u8, 0, 0, 0, 0, 0, 0, 1, 0xFF]);
    assert_eq!(parse_request(&[]).unwrap_err(), CommandError::Invalid(0));
    assert_eq!(parse_request(&[9]).unwrap_err(), CommandError::Invalid(9));
    assert_eq!(
        parse_request(&[0, 0, 0]).unwrap_err(),
        CommandError::Object(ObjectError::MalformedData)
    );
    assert_eq!(
        parse_request(&[1, 0, 1, b'x', 1, 0]).unwrap_err(),
        CommandError::Object(ObjectError::Incomplete)
    );
    assert_eq!(parse_request(&[0, 0, 1, b'x', 1, 2, 0]).unwrap_err(), CommandError::Param);
    assert_eq!(parse_request(&[0, 0, 1, b'x', 2, 1, 3]).unwrap_err(), CommandError::Param);
    assert!(handle(&mut store, &[255u8]).is_none());
}

#[test]
fn get_parameters() {
    let p = GetParams::from_bytes(&[]).unwrap();
    assert!(p.link_resolution.is_none());
    let p = GetParams::from_bytes(&[2, 1, 4, 1, 6]).unwrap();
    assert_eq!(p.link_resolution.unwrap().max_resolutions(), 6);
    let (lr, rest) = LinkResolution::from_bytes(&[3, 9]).unwrap();
    assert_eq!(lr.max_resolutions(), 3);
    assert_eq!(rest, &[9u8]);
    assert_eq!(LinkResolution::from_bytes(&[]).unwrap_err(), CommandError::Param);
    match Command::new(2, vec![0, 1, b'z']).unwrap() {
        Command::Delete(k) => assert_eq!(k.as_bytes(), b"z"),
        _ => panic!("expected a delete"),
    }
    assert!(matches!(Command::new(255, vec![]).unwrap(), Command::Close));
}

#[test]
fn response_framing() {
    let r = encode_response(&Int::new_object(42));
    assert_eq!(r, frame(&int_bytes(42)));
    let mut b = ListBuilder::new(0);
    b.add_item(Link::new(Key::from_slice(b"q").unwrap()).into_object());
    let obj = b.build().into_object();
    assert_eq!(encode_response(&obj), frame(&[3, 0, 1, 5, 0, 1, b'q']));
    assert_eq!(encode_response(&Object::null()), frame(&[0]));
}
