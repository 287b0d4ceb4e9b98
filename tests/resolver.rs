use crab::link_resolver::LinkResolver;
use crab::object::{Key, Object};
use crab::server::LinkResolution;
use crab::storage::InMemoryStore;
use crab::types::{Int, Link, ListBuilder, MapBuilder, Text};

fn key(s: &str) -> Key {
    Key::from_slice(s.as_bytes()).unwrap()
}

fn link(s: &str) -> Object {
    Link::new(key(s)).into_object()
}

fn resolve(store: &InMemoryStore, depth: u8, o: Object) -> Vec<u8> {
    LinkResolver::new(LinkResolution::new(depth), store).resolve(o).unwrap().serialize()
}

#[test]
fn link_free_objects_are_unchanged() {
    let mut store = InMemoryStore::new(2);
    store.store(key("a"), Int::new_object(5), 1).unwrap();
    let mut inner = MapBuilder::new(0);
    inner.add_field(b"t", Text::new("x").into_object());
    let mut b = ListBuilder::new(0);
    b.add_item(Int::new_object(1));
    b.add_item(inner.build().into_object());
    let o = b.build().into_object();
    let bytes = o.serialize();
    for d in [0u8, 1, 255] {
        assert_eq!(resolve(&store, d, o.clone()), bytes);
    }
    assert_eq!(resolve(&store, 3, Int::new_object(7)), Int::new_object(7).serialize());
}

#[test]
fn depth_zero_keeps_top_link() {
    let mut store = InMemoryStore::new(2);
    store.store(key("a"), Int::new_object(5), 1).unwrap();
    assert_eq!(resolve(&store, 0, link("a")), link("a").serialize());
    assert_eq!(resolve(&store, 1, link("a")), Int::new_object(5).serialize());
}

#[test]
fn depth_bounds_link_chains() {
    let mut store = InMemoryStore::new(4);
    store.store(key("a"), link("b"), 1).unwrap();
    store.store(key("b"), link("c"), 1).unwrap();
    store.store(key("c"), Int::new_object(9), 1).unwrap();
    assert_eq!(resolve(&store, 1, link("a")), link("b").serialize());
    assert_eq!(resolve(&store, 2, link("a")), link("c").serialize());
    assert_eq!(resolve(&store, 3, link("a")), Int::new_object(9).serialize());
}

#[test]
fn missing_key_resolves_to_null() {
    let store = InMemoryStore::new(1);
    assert_eq!(resolve(&store, 5, link("nothing")), vec![0u8]);
}

#[test]
fn self_cycle_is_followed_once() {
    let mut store = InMemoryStore::new(1);
    store.store(key("s"), link("s"), 1).unwrap();
    assert_eq!(resolve(&store, 200, link("s")), link("s").serialize());
}

#[test]
fn map_values_resolve_in_order() {
    let mut store = InMemoryStore::new(2);
    store.store(key("v"), Text::new("ok").into_object(), 1).unwrap();
    let mut b = MapBuilder::new(0);
    b.add_field(b"second", link("v"));
    b.add_field(b"first", Int::new_object(1));
    let mut e = MapBuilder::new(0);
    e.add_field(b"second", Text::new("ok").into_object());
    e.add_field(b"first", Int::new_object(1));
    assert_eq!(
        resolve(&store, 1, b.build().into_object()),
        e.build().into_object().serialize()
    );
}
