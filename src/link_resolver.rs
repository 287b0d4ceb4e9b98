//! Link resolution: rebuilding an object with the links inside it replaced by
//! the objects they refer to, up to a depth and without following a key
//! twice along one path.
//!
//! The depth is the number of links followed on the way from the root: a
//! link is replaced only while fewer than the maximum have been followed
//! above it, and only if its key was not followed above it. A link left in
//! place stays a link; a key with nothing stored under it resolves to null.

use vstd::prelude::*;
use crate::bytes::be16;
use crate::object::{valid_object, Key, Object, ObjectKind};
use crate::server::LinkResolution;
use crate::storage::{lookup, InMemoryStore, StoreError};
use crate::types::{
    all_valid, all_valid_fields, concat, concat_fields, lemma_entries_of_concat,
    lemma_items_of_concat, lemma_list_shape, lemma_map_shape, list_encoding, list_items,
    map_encoding, map_fields, Link, List, ListBuilder, MapBuilder, Mapping,
};

verus! {

/// The key of the link encoding `e`.
pub open spec fn link_target(e: Seq<u8>) -> Seq<u8> {
    e.subrange(3, e.len() as int)
}

/// The encoding `e` with its links resolved against the store contents `m`:
/// `depth` links have been followed above it, at most `max` may be, and the
/// keys in `visited` were followed above it.
pub open spec fn resolved(
    e: Seq<u8>,
    m: Map<Seq<u8>, Seq<u8>>,
    max: nat,
    depth: nat,
    visited: Set<Seq<u8>>,
) -> Seq<u8>
    decreases max - depth, e.len(), 0nat,
{
    if e.len() < 3 {
        e
    } else if e[0] == 3 {
        let items = list_items(e);
        if concat(items).len() < e.len() {
            list_encoding(resolved_items(items, m, max, depth, visited))
        } else {
            e
        }
    } else if e[0] == 4 {
        let fields = map_fields(e);
        if concat_fields(fields).len() < e.len() {
            map_encoding(resolved_fields(fields, m, max, depth, visited))
        } else {
            e
        }
    } else if e[0] == 5 {
        let k = link_target(e);
        if depth < max && !visited.contains(k) {
            resolved(lookup(m, k), m, max, depth + 1, visited.insert(k))
        } else {
            e
        }
    } else {
        e
    }
}

/// Each element of `items` resolved, in order.
pub open spec fn resolved_items(
    items: Seq<Seq<u8>>,
    m: Map<Seq<u8>, Seq<u8>>,
    max: nat,
    depth: nat,
    visited: Set<Seq<u8>>,
) -> Seq<Seq<u8>>
    decreases max - depth, concat(items).len(), items.len(),
{
    if items.len() == 0 {
        seq![]
    } else {
        seq![resolved(items[0], m, max, depth, visited)] + resolved_items(
            items.subrange(1, items.len() as int),
            m,
            max,
            depth,
            visited,
        )
    }
}

/// Each field of `fields` with its value resolved, names and order kept.
pub open spec fn resolved_fields(
    fields: Seq<(Seq<u8>, Seq<u8>)>,
    m: Map<Seq<u8>, Seq<u8>>,
    max: nat,
    depth: nat,
    visited: Set<Seq<u8>>,
) -> Seq<(Seq<u8>, Seq<u8>)>
    decreases max - depth, concat_fields(fields).len(), fields.len(),
{
    if fields.len() == 0 {
        seq![]
    } else {
        seq![(fields[0].0, resolved(fields[0].1, m, max, depth, visited))] + resolved_fields(
            fields.subrange(1, fields.len() as int),
            m,
            max,
            depth,
            visited,
        )
    }
}

/// The keys of `v`.
pub open spec fn key_set(v: Seq<Key>) -> Set<Seq<u8>> {
    Set::new(|s: Seq<u8>| exists|i: int| 0 <= i < v.len() && (#[trigger] v[i])@ == s)
}

fn visited_contains(visited: &Vec<Key>, key: &Key) -> (r: bool)
    ensures
        r == key_set(visited@).contains(key@),
{
    let mut i: usize = 0;
    while i < visited.len()
        invariant
            i <= visited@.len(),
            forall|j: int| 0 <= j < i ==> (#[trigger] visited@[j])@ != key@,
        decreases visited@.len() - i,
    {
        if visited[i].same_as(key) {
            return true;
        }
        i = i + 1;
    }
    false
}

proof fn lemma_key_set_push(v: Seq<Key>, k: Key)
    ensures
        key_set(v.push(k)) == key_set(v).insert(k@),
{
    assert forall|s: Seq<u8>| #[trigger] key_set(v.push(k)).contains(s) <==> key_set(v).insert(
        k@,
    ).contains(s) by {
        if key_set(v).contains(s) {
            let i = choose|i: int| 0 <= i < v.len() && (#[trigger] v[i])@ == s;
            assert(v.push(k)[i] == v[i]);
        }
        if s == k@ {
            assert(v.push(k)[v.len() as int] == k);
        }
        if key_set(v.push(k)).contains(s) {
            let i = choose|i: int| 0 <= i < v.len() + 1 && (#[trigger] v.push(k)[i])@ == s;
            if i < v.len() {
                assert(v[i] == v.push(k)[i]);
            }
        }
    }
    assert(key_set(v.push(k)) =~= key_set(v).insert(k@));
}

proof fn lemma_item_within_concat(s: Seq<Seq<u8>>, i: int)
    requires
        0 <= i < s.len(),
    ensures
        s[i].len() <= concat(s).len(),
    decreases s.len(),
{
    if i > 0 {
        lemma_item_within_concat(s.subrange(1, s.len() as int), i - 1);
    }
}

proof fn lemma_field_within_concat(s: Seq<(Seq<u8>, Seq<u8>)>, i: int)
    requires
        0 <= i < s.len(),
    ensures
        s[i].1.len() <= concat_fields(s).len(),
    decreases s.len(),
{
    if i > 0 {
        lemma_field_within_concat(s.subrange(1, s.len() as int), i - 1);
    }
}

/// A list encoding built from valid elements lists exactly those elements.
proof fn lemma_list_items_of_encoding(s: Seq<Seq<u8>>)
    requires
        all_valid(s),
        s.len() <= crate::object::MAX_LEN,
    ensures
        list_items(list_encoding(s)) == s,
        concat(s).len() < list_encoding(s).len(),
{
    let e = list_encoding(s);
    crate::bytes::lemma_be16_round_trip(s.len());
    assert(e.subrange(3, e.len() as int) =~= concat(s) + Seq::<u8>::empty());
    assert(e.subrange(1, e.len() as int).subrange(0, 2) =~= crate::bytes::be16_bytes(s.len()));
    assert(be16(e.subrange(1, e.len() as int)) == be16(crate::bytes::be16_bytes(s.len())));
    lemma_items_of_concat(s, Seq::<u8>::empty());
}

/// A map encoding built from valid fields lists exactly those fields.
proof fn lemma_map_fields_of_encoding(s: Seq<(Seq<u8>, Seq<u8>)>)
    requires
        all_valid_fields(s),
        s.len() <= crate::object::MAX_LEN,
    ensures
        map_fields(map_encoding(s)) == s,
        concat_fields(s).len() < map_encoding(s).len(),
{
    let e = map_encoding(s);
    crate::bytes::lemma_be16_round_trip(s.len());
    assert(e.subrange(3, e.len() as int) =~= concat_fields(s) + Seq::<u8>::empty());
    assert(e.subrange(1, e.len() as int).subrange(0, 2) =~= crate::bytes::be16_bytes(s.len()));
    assert(be16(e.subrange(1, e.len() as int)) == be16(crate::bytes::be16_bytes(s.len())));
    lemma_entries_of_concat(s, Seq::<u8>::empty());
}

/// `e` holds no link, at any depth.
pub open spec fn link_free(e: Seq<u8>) -> bool
    decreases e.len(), 0nat,
{
    if e.len() < 3 {
        true
    } else if e[0] == 5 {
        false
    } else if e[0] == 3 {
        concat(list_items(e)).len() < e.len() && items_link_free(list_items(e))
    } else if e[0] == 4 {
        concat_fields(map_fields(e)).len() < e.len() && fields_link_free(map_fields(e))
    } else {
        true
    }
}

/// No element of `items` holds a link.
pub open spec fn items_link_free(items: Seq<Seq<u8>>) -> bool
    decreases concat(items).len(), items.len(),
{
    items.len() == 0 || (link_free(items[0]) && items_link_free(
        items.subrange(1, items.len() as int),
    ))
}

/// No value of `fields` holds a link.
pub open spec fn fields_link_free(fields: Seq<(Seq<u8>, Seq<u8>)>) -> bool
    decreases concat_fields(fields).len(), fields.len(),
{
    fields.len() == 0 || (link_free(fields[0].1) && fields_link_free(
        fields.subrange(1, fields.len() as int),
    ))
}

/// The greatest number of links that resolving `e` follows along one path
/// from `e` down to a leaf.
pub open spec fn links_followed(
    e: Seq<u8>,
    m: Map<Seq<u8>, Seq<u8>>,
    max: nat,
    depth: nat,
    visited: Set<Seq<u8>>,
) -> nat
    decreases max - depth, e.len(), 0nat,
{
    if e.len() < 3 {
        0
    } else if e[0] == 3 {
        let items = list_items(e);
        if concat(items).len() < e.len() {
            items_links_followed(items, m, max, depth, visited)
        } else {
            0
        }
    } else if e[0] == 4 {
        let fields = map_fields(e);
        if concat_fields(fields).len() < e.len() {
            fields_links_followed(fields, m, max, depth, visited)
        } else {
            0
        }
    } else if e[0] == 5 {
        let k = link_target(e);
        if depth < max && !visited.contains(k) {
            1 + links_followed(lookup(m, k), m, max, depth + 1, visited.insert(k))
        } else {
            0
        }
    } else {
        0
    }
}

/// The greatest of `links_followed` over the elements of `items`.
pub open spec fn items_links_followed(
    items: Seq<Seq<u8>>,
    m: Map<Seq<u8>, Seq<u8>>,
    max: nat,
    depth: nat,
    visited: Set<Seq<u8>>,
) -> nat
    decreases max - depth, concat(items).len(), items.len(),
{
    if items.len() == 0 {
        0
    } else {
        let a = links_followed(items[0], m, max, depth, visited);
        let b = items_links_followed(items.subrange(1, items.len() as int), m, max, depth, visited);
        if a >= b {
            a
        } else {
            b
        }
    }
}

/// The greatest of `links_followed` over the values of `fields`.
pub open spec fn fields_links_followed(
    fields: Seq<(Seq<u8>, Seq<u8>)>,
    m: Map<Seq<u8>, Seq<u8>>,
    max: nat,
    depth: nat,
    visited: Set<Seq<u8>>,
) -> nat
    decreases max - depth, concat_fields(fields).len(), fields.len(),
{
    if fields.len() == 0 {
        0
    } else {
        let a = links_followed(fields[0].1, m, max, depth, visited);
        let b = fields_links_followed(
            fields.subrange(1, fields.len() as int),
            m,
            max,
            depth,
            visited,
        );
        if a >= b {
            a
        } else {
            b
        }
    }
}

proof fn lemma_resolved_link_free(
    e: Seq<u8>,
    m: Map<Seq<u8>, Seq<u8>>,
    max: nat,
    depth: nat,
    visited: Set<Seq<u8>>,
)
    requires
        valid_object(e),
        link_free(e),
    ensures
        resolved(e, m, max, depth, visited) == e,
    decreases e.len(), 0nat,
{
    if e.len() >= 3 {
        if e[0] == 3 {
            lemma_list_shape(e);
            lemma_items_resolved_link_free(list_items(e), m, max, depth, visited);
        } else if e[0] == 4 {
            lemma_map_shape(e);
            lemma_fields_resolved_link_free(map_fields(e), m, max, depth, visited);
        }
    }
}

proof fn lemma_items_resolved_link_free(
    items: Seq<Seq<u8>>,
    m: Map<Seq<u8>, Seq<u8>>,
    max: nat,
    depth: nat,
    visited: Set<Seq<u8>>,
)
    requires
        all_valid(items),
        items_link_free(items),
    ensures
        resolved_items(items, m, max, depth, visited) == items,
    decreases concat(items).len(), items.len(),
{
    if items.len() > 0 {
        let rest = items.subrange(1, items.len() as int);
        assert(valid_object(items[0]));
        lemma_resolved_link_free(items[0], m, max, depth, visited);
        assert(all_valid(rest)) by {
            assert forall|i: int| 0 <= i < rest.len() implies valid_object(#[trigger] rest[i]) by {
                assert(rest[i] == items[i + 1]);
            }
        }
        lemma_items_resolved_link_free(rest, m, max, depth, visited);
        assert(seq![items[0]] + rest =~= items);
    }
}

proof fn lemma_fields_resolved_link_free(
    fields: Seq<(Seq<u8>, Seq<u8>)>,
    m: Map<Seq<u8>, Seq<u8>>,
    max: nat,
    depth: nat,
    visited: Set<Seq<u8>>,
)
    requires
        all_valid_fields(fields),
        fields_link_free(fields),
    ensures
        resolved_fields(fields, m, max, depth, visited) == fields,
    decreases concat_fields(fields).len(), fields.len(),
{
    if fields.len() > 0 {
        let rest = fields.subrange(1, fields.len() as int);
        assert(valid_object(fields[0].1));
        lemma_resolved_link_free(fields[0].1, m, max, depth, visited);
        assert(all_valid_fields(rest)) by {
            assert forall|i: int| 0 <= i < rest.len() implies {
                &&& crate::object::utf8(#[trigger] rest[i].0)
                &&& rest[i].0.len() <= crate::object::MAX_LEN
                &&& valid_object(rest[i].1)
            } by {
                assert(rest[i] == fields[i + 1]);
            }
        }
        lemma_fields_resolved_link_free(rest, m, max, depth, visited);
        assert(seq![(fields[0].0, fields[0].1)] + rest =~= fields);
    }
}

/// Resolving an object that holds no link gives it back unchanged, whatever
/// the store and the depth.
pub proof fn law_link_free_unchanged(e: Seq<u8>, m: Map<Seq<u8>, Seq<u8>>, max: nat)
    requires
        valid_object(e),
        link_free(e),
    ensures
        resolved(e, m, max, 0, Set::empty()) == e,
{
    lemma_resolved_link_free(e, m, max, 0, Set::empty());
}

proof fn lemma_depth_bound(
    e: Seq<u8>,
    m: Map<Seq<u8>, Seq<u8>>,
    max: nat,
    depth: nat,
    visited: Set<Seq<u8>>,
)
    requires
        depth <= max,
    ensures
        links_followed(e, m, max, depth, visited) + depth <= max,
    decreases max - depth, e.len(), 0nat,
{
    if e.len() >= 3 {
        if e[0] == 3 {
            let items = list_items(e);
            if concat(items).len() < e.len() {
                lemma_items_depth_bound(items, m, max, depth, visited);
            }
        } else if e[0] == 4 {
            let fields = map_fields(e);
            if concat_fields(fields).len() < e.len() {
                lemma_fields_depth_bound(fields, m, max, depth, visited);
            }
        } else if e[0] == 5 {
            let k = link_target(e);
            if depth < max && !visited.contains(k) {
                lemma_depth_bound(lookup(m, k), m, max, depth + 1, visited.insert(k));
            }
        }
    }
}

proof fn lemma_items_depth_bound(
    items: Seq<Seq<u8>>,
    m: Map<Seq<u8>, Seq<u8>>,
    max: nat,
    depth: nat,
    visited: Set<Seq<u8>>,
)
    requires
        depth <= max,
    ensures
        items_links_followed(items, m, max, depth, visited) + depth <= max,
    decreases max - depth, concat(items).len(), items.len(),
{
    if items.len() > 0 {
        lemma_depth_bound(items[0], m, max, depth, visited);
        lemma_items_depth_bound(items.subrange(1, items.len() as int), m, max, depth, visited);
    }
}

proof fn lemma_fields_depth_bound(
    fields: Seq<(Seq<u8>, Seq<u8>)>,
    m: Map<Seq<u8>, Seq<u8>>,
    max: nat,
    depth: nat,
    visited: Set<Seq<u8>>,
)
    requires
        depth <= max,
    ensures
        fields_links_followed(fields, m, max, depth, visited) + depth <= max,
    decreases max - depth, concat_fields(fields).len(), fields.len(),
{
    if fields.len() > 0 {
        lemma_depth_bound(fields[0].1, m, max, depth, visited);
        lemma_fields_depth_bound(fields.subrange(1, fields.len() as int), m, max, depth, visited);
    }
}

/// Along any path from the root to a leaf, resolution follows at most
/// `max` links.
pub proof fn law_depth_bound(e: Seq<u8>, m: Map<Seq<u8>, Seq<u8>>, max: nat)
    ensures
        links_followed(e, m, max, 0, Set::empty()) <= max,
{
    lemma_depth_bound(e, m, max, 0, Set::empty());
}

proof fn lemma_cycle_bound(
    e: Seq<u8>,
    m: Map<Seq<u8>, Seq<u8>>,
    max: nat,
    depth: nat,
    visited: Set<Seq<u8>>,
)
    requires
        m.dom().finite(),
    ensures
        links_followed(e, m, max, depth, visited) <= m.dom().difference(visited).len() + 1,
    decreases max - depth, e.len(), 0nat,
{
    if e.len() >= 3 {
        if e[0] == 3 {
            let items = list_items(e);
            if concat(items).len() < e.len() {
                lemma_items_cycle_bound(items, m, max, depth, visited);
            }
        } else if e[0] == 4 {
            let fields = map_fields(e);
            if concat_fields(fields).len() < e.len() {
                lemma_fields_cycle_bound(fields, m, max, depth, visited);
            }
        } else if e[0] == 5 {
            let k = link_target(e);
            if depth < max && !visited.contains(k) {
                let v2 = visited.insert(k);
                lemma_cycle_bound(lookup(m, k), m, max, depth + 1, v2);
                if m.dom().contains(k) {
                    assert(m.dom().difference(v2) =~= m.dom().difference(visited).remove(k));
                    assert(m.dom().difference(visited).contains(k));
                } else {
                    assert(links_followed(seq![0u8], m, max, depth + 1, v2) == 0);
                }
            }
        }
    }
}

proof fn lemma_items_cycle_bound(
    items: Seq<Seq<u8>>,
    m: Map<Seq<u8>, Seq<u8>>,
    max: nat,
    depth: nat,
    visited: Set<Seq<u8>>,
)
    requires
        m.dom().finite(),
    ensures
        items_links_followed(items, m, max, depth, visited) <= m.dom().difference(visited).len()
            + 1,
    decreases max - depth, concat(items).len(), items.len(),
{
    if items.len() > 0 {
        lemma_cycle_bound(items[0], m, max, depth, visited);
        lemma_items_cycle_bound(items.subrange(1, items.len() as int), m, max, depth, visited);
    }
}

proof fn lemma_fields_cycle_bound(
    fields: Seq<(Seq<u8>, Seq<u8>)>,
    m: Map<Seq<u8>, Seq<u8>>,
    max: nat,
    depth: nat,
    visited: Set<Seq<u8>>,
)
    requires
        m.dom().finite(),
    ensures
        fields_links_followed(fields, m, max, depth, visited) <= m.dom().difference(visited).len()
            + 1,
    decreases max - depth, concat_fields(fields).len(), fields.len(),
{
    if fields.len() > 0 {
        lemma_cycle_bound(fields[0].1, m, max, depth, visited);
        lemma_fields_cycle_bound(fields.subrange(1, fields.len() as int), m, max, depth, visited);
    }
}

/// Cycles are followed at most once: along any path, resolution follows no
/// key twice, so it follows at most one link more than there are stored
/// keys, however large the depth and however the links loop.
pub proof fn law_cycle_safe(e: Seq<u8>, m: Map<Seq<u8>, Seq<u8>>, max: nat)
    requires
        m.dom().finite(),
    ensures
        links_followed(e, m, max, 0, Set::empty()) <= m.dom().len() + 1,
{
    lemma_cycle_bound(e, m, max, 0, Set::empty());
    assert(m.dom().difference(Set::empty()) =~= m.dom());
}

/// Cycle safety along a path: a link whose key was already followed above
/// it is left in place as that same link, and a link that is followed marks
/// its key as followed for everything resolved below it. So each link on a
/// cycle is followed at most once along any path from the root.
pub proof fn law_cycle_followed_once(
    e: Seq<u8>,
    m: Map<Seq<u8>, Seq<u8>>,
    max: nat,
    depth: nat,
    visited: Set<Seq<u8>>,
)
    requires
        valid_object(e),
        e[0] == 5,
    ensures
        visited.contains(link_target(e)) ==> resolved(e, m, max, depth, visited) == e,
        !visited.contains(link_target(e)) && depth < max ==> resolved(e, m, max, depth, visited)
            == resolved(
            lookup(m, link_target(e)),
            m,
            max,
            depth + 1,
            visited.insert(link_target(e)),
        ),
{
    crate::object::lemma_payload_len_bounds(ObjectKind::Link, e.subrange(1, e.len() as int));
}

/// Resolves the links inside objects against a store.
pub struct LinkResolver<'a> {
    max_resolution_depth: u8,
    storage: &'a InMemoryStore,
}

impl<'a> LinkResolver<'a> {
    /// The greatest number of links followed along any path.
    pub closed spec fn max_depth(&self) -> nat {
        self.max_resolution_depth as nat
    }

    /// The store that links are resolved against.
    pub closed spec fn store(&self) -> &'a InMemoryStore {
        self.storage
    }

    /// A resolver with the depth of `link_resolutions` over `storage`.
    pub fn new(link_resolutions: LinkResolution, storage: &'a InMemoryStore) -> (r: LinkResolver<
        'a,
    >)
        ensures
            r.max_depth() == link_resolutions@,
            r.store() == storage,
    {
        LinkResolver { max_resolution_depth: link_resolutions.max_resolutions(), storage }
    }

    /// `object` with its links resolved.
    pub fn resolve(&self, object: Object) -> (r: Result<Object, StoreError>)
        requires
            self.store().wf(),
        ensures
            r matches Ok(o) && o@ == resolved(
                object@,
                self.store().contents(),
                self.max_depth(),
                0,
                Set::empty(),
            ),
    {
        let mut visited: Vec<Key> = Vec::new();
        proof {
            assert(key_set(visited@) =~= Set::<Seq<u8>>::empty());
        }
        self.resolve_links(object, 0, &mut visited)
    }

    fn resolve_links(&self, object: Object, depth: u16, visited: &mut Vec<Key>) -> (r: Result<
        Object,
        StoreError,
    >)
        requires
            self.storage.wf(),
            depth <= self.max_resolution_depth,
        ensures
            final(visited)@ == old(visited)@,
            r matches Ok(o) && o@ == resolved(
                object@,
                self.storage.contents(),
                self.max_resolution_depth as nat,
                depth as nat,
                key_set(old(visited)@),
            ),
        decreases self.max_resolution_depth - depth, object@.len(), 1nat,
    {
        object.check_valid();
        match object.kind() {
            ObjectKind::List => self.resolve_list(object, depth, visited),
            ObjectKind::Mapping => self.resolve_map(object, depth, visited),
            ObjectKind::Link => self.resolve_link(object, depth, visited),
            _ => {
                proof {
                    crate::object::lemma_object_len_bounds(object@);
                }
                Ok(object)
            },
        }
    }

    fn resolve_list(&self, object: Object, depth: u16, visited: &mut Vec<Key>) -> (r: Result<
        Object,
        StoreError,
    >)
        requires
            self.storage.wf(),
            depth <= self.max_resolution_depth,
            object@[0] == 3,
        ensures
            final(visited)@ == old(visited)@,
            r matches Ok(o) && o@ == resolved(
                object@,
                self.storage.contents(),
                self.max_resolution_depth as nat,
                depth as nat,
                key_set(old(visited)@),
            ),
        decreases self.max_resolution_depth - depth, object@.len(), 0nat,
    {
        let ghost m = self.storage.contents();
        let ghost max = self.max_resolution_depth as nat;
        let ghost vis = key_set(visited@);
        object.check_valid();
        let list = match List::from_object(&object) {
            Ok(l) => l,
            Err(_) => return Ok(object),
        };
        let ghost items = list@;
        let count = list.len();
        proof {
            lemma_list_items_of_encoding(items);
            assert forall|i: int| 0 <= i < items.len() implies (#[trigger] items[i]).len()
                < object@.len() by {
                lemma_item_within_concat(items, i);
            }
        }
        let mut it = list.iter();
        let mut builder = ListBuilder::new(count);
        loop
            invariant
                self.storage.wf(),
                depth <= self.max_resolution_depth,
                m == self.storage.contents(),
                max == self.max_resolution_depth as nat,
                visited@ == old(visited)@,
                vis == key_set(old(visited)@),
                it.wf(),
                builder.wf(),
                builder.count() == items.len(),
                items.len() <= crate::object::MAX_LEN,
                builder.items().len() <= items.len(),
                it@ == items.subrange(builder.items().len() as int, items.len() as int),
                builder.items() + resolved_items(it@, m, max, depth as nat, vis)
                    == resolved_items(items, m, max, depth as nat, vis),
                forall|i: int| 0 <= i < items.len() ==> (#[trigger] items[i]).len() < object@.len(),
            ensures
                visited@ == old(visited)@,
                builder.wf(),
                builder.count() == builder.items().len(),
                builder.items() == resolved_items(items, m, max, depth as nat, vis),
            decreases it@.len(),
        {
            let ghost before = it@;
            match it.next() {
                None => {
                    proof {
                        assert(builder.items() + resolved_items(it@, m, max, depth as nat, vis)
                            =~= builder.items());
                        assert(builder.items().len() == items.len());
                    }
                    break;
                },
                Some(item) => {
                    proof {
                        assert(item@ == items[builder.items().len() as int]);
                    }
                    let r = match self.resolve_links(item, depth, visited) {
                        Ok(o) => o,
                        Err(e) => return Err(e),
                    };
                    let ghost done = builder.items();
                    builder.add_item_no_increment(r);
                    proof {
                        assert(before.subrange(1, before.len() as int) == it@);
                        assert(done.push(r@) + resolved_items(it@, m, max, depth as nat, vis)
                            =~= done + resolved_items(before, m, max, depth as nat, vis));
                        assert(it@ =~= items.subrange(
                            builder.items().len() as int,
                            items.len() as int,
                        ));
                    }
                },
            }
        }
        Ok(builder.build().into_object())
    
    }

    fn resolve_map(&self, object: Object, depth: u16, visited: &mut Vec<Key>) -> (r: Result<
        Object,
        StoreError,
    >)
        requires
            self.storage.wf(),
            depth <= self.max_resolution_depth,
            object@[0] == 4,
        ensures
            final(visited)@ == old(visited)@,
            r matches Ok(o) && o@ == resolved(
                object@,
                self.storage.contents(),
                self.max_resolution_depth as nat,
                depth as nat,
                key_set(old(visited)@),
            ),
        decreases self.max_resolution_depth - depth, object@.len(), 0nat,
    {
        let ghost m = self.storage.contents();
        let ghost max = self.max_resolution_depth as nat;
        let ghost vis = key_set(visited@);
        object.check_valid();
        let map = match Mapping::from_object(&object) {
            Ok(mp) => mp,
            Err(_) => return Ok(object),
        };
        let ghost fields = map@;
        let count = map.num_fields();
        proof {
            lemma_map_fields_of_encoding(fields);
            assert forall|i: int| 0 <= i < fields.len() implies (#[trigger] fields[i]).1.len()
                < object@.len() by {
                lemma_field_within_concat(fields, i);
            }
        }
        let mut it = map.iter();
        let mut builder = MapBuilder::new(count);
        loop
            invariant
                self.storage.wf(),
                depth <= self.max_resolution_depth,
                m == self.storage.contents(),
                max == self.max_resolution_depth as nat,
                visited@ == old(visited)@,
                vis == key_set(old(visited)@),
                it.wf(),
                builder.wf(),
                builder.count() == fields.len(),
                fields.len() <= crate::object::MAX_LEN,
                all_valid_fields(fields),
                builder.fields().len() <= fields.len(),
                it@ == fields.subrange(builder.fields().len() as int, fields.len() as int),
                builder.fields() + resolved_fields(it@, m, max, depth as nat, vis)
                    == resolved_fields(fields, m, max, depth as nat, vis),
                forall|i: int| 0 <= i < fields.len() ==> (#[trigger] fields[i]).1.len() < object@.len(),
            ensures
                visited@ == old(visited)@,
                builder.wf(),
                builder.count() == builder.fields().len(),
                builder.fields() == resolved_fields(fields, m, max, depth as nat, vis),
            decreases it@.len(),
        {
            let ghost before = it@;
            match it.next() {
                None => {
                    proof {
                        assert(builder.fields() + resolved_fields(it@, m, max, depth as nat, vis)
                            =~= builder.fields());
                        assert(builder.fields().len() == fields.len());
                    }
                    break;
                },
                Some((name, value)) => {
                    proof {
                        assert(value@ == fields[builder.fields().len() as int].1);
                        assert(name@ == fields[builder.fields().len() as int].0);
                    }
                    let r = match self.resolve_links(value, depth, visited) {
                        Ok(o) => o,
                        Err(e) => return Err(e),
                    };
                    let ghost done = builder.fields();
                    builder.add_field_no_increment(name.as_slice(), r);
                    proof {
                        assert(before.subrange(1, before.len() as int) == it@);
                        assert(done.push((name@, r@)) + resolved_fields(it@, m, max, depth as nat, vis)
                            =~= done + resolved_fields(before, m, max, depth as nat, vis));
                        assert(it@ =~= fields.subrange(
                            builder.fields().len() as int,
                            fields.len() as int,
                        ));
                    }
                },
            }
        }
        Ok(builder.build().into_object())
    
    }

    fn resolve_link(&self, object: Object, depth: u16, visited: &mut Vec<Key>) -> (r: Result<
        Object,
        StoreError,
    >)
        requires
            self.storage.wf(),
            depth <= self.max_resolution_depth,
            object@[0] == 5,
        ensures
            final(visited)@ == old(visited)@,
            r matches Ok(o) && o@ == resolved(
                object@,
                self.storage.contents(),
                self.max_resolution_depth as nat,
                depth as nat,
                key_set(old(visited)@),
            ),
        decreases self.max_resolution_depth - depth, object@.len(), 0nat,
    {
        let ghost m = self.storage.contents();
        let ghost max = self.max_resolution_depth as nat;
        let ghost vis = key_set(visited@);
        object.check_valid();
        if depth >= self.max_resolution_depth as u16 {
            return Ok(object);
        }
        let link = match Link::from_object(&object) {
            Ok(l) => l,
            Err(_) => return Ok(object),
        };
        proof {
            assert(link_target(object@) =~= link@);
        }
        let key = link.key().clone();
        if visited_contains(visited, &key) {
            return Ok(object);
        }
        let target = match self.storage.retrieve(&key) {
            Ok(t) => t,
            Err(e) => return Err(e),
        };
        proof {
            lemma_key_set_push(visited@, key);
        }
        visited.push(key);
        let r = self.resolve_links(target, depth + 1, visited);
        visited.pop();
        proof {
            assert(visited@ =~= old(visited)@);
        }
        r
    
    }
}

} // verus!
